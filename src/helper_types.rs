//! Value types of the record model: durations, rates, quantities and the
//! sum types that keep the text as read where a grammar does not match.
use vstd::prelude::*;

use crate::numbers::{decimal_of, find_char, index_of, parse_decimal, Decimal};
use crate::text::{chars_of, slice_chars, string_of_range};

verus! {

/// A span of time: a factor of a unit. Two spans are equal when they are
/// equally long in seconds.
#[derive(Debug, Clone, Copy, Eq)]
pub enum Duration {
    Seconds(Decimal),
    Minutes(Decimal),
    Hours(Decimal),
    Days(Decimal),
    Weeks(Decimal),
    Months(Decimal),
    Years(Decimal),
}

impl Duration {
    /// The factor of the unit.
    pub open spec fn factor(self) -> Decimal {
        match self {
            Duration::Seconds(f) => f,
            Duration::Minutes(f) => f,
            Duration::Hours(f) => f,
            Duration::Days(f) => f,
            Duration::Weeks(f) => f,
            Duration::Months(f) => f,
            Duration::Years(f) => f,
        }
    }

    /// The seconds in one unit; a month counts 30 days, a year 365.
    pub open spec fn unit_seconds(self) -> nat {
        match self {
            Duration::Seconds(_) => 1,
            Duration::Minutes(_) => 60,
            Duration::Hours(_) => 3600,
            Duration::Days(_) => 86400,
            Duration::Weeks(_) => 604800,
            Duration::Months(_) => 2592000,
            Duration::Years(_) => 31536000,
        }
    }

    /// The length in seconds, times `10^scale` of the factor.
    pub open spec fn scaled_seconds(self) -> int {
        let f = self.factor();
        let n = f.digits * self.unit_seconds();
        if f.negative {
            -n
        } else {
            n
        }
    }

    /// Whether the factor stays within the bounds of [`Decimal`].
    pub open spec fn wf(self) -> bool {
        self.factor().wf()
    }

    /// The factor of the unit.
    pub fn get_factor(&self) -> (r: Decimal)
        ensures
            r == self.factor(),
    {
        match self {
            Duration::Seconds(f) => *f,
            Duration::Minutes(f) => *f,
            Duration::Hours(f) => *f,
            Duration::Days(f) => *f,
            Duration::Weeks(f) => *f,
            Duration::Months(f) => *f,
            Duration::Years(f) => *f,
        }
    }

    /// The seconds in one unit.
    pub fn get_unit_seconds(&self) -> (r: u64)
        ensures
            r == self.unit_seconds(),
    {
        match self {
            Duration::Seconds(_) => 1,
            Duration::Minutes(_) => 60,
            Duration::Hours(_) => 3600,
            Duration::Days(_) => 86400,
            Duration::Weeks(_) => 604800,
            Duration::Months(_) => 2592000,
            Duration::Years(_) => 31536000,
        }
    }
}

/// Ten to the power `n`.
pub open spec fn pow10(n: nat) -> nat
    decreases n,
{
    if n == 0 {
        1
    } else {
        10 * pow10((n - 1) as nat)
    }
}

/// How two durations compare in length: -1, 0 or 1.
pub open spec fn duration_cmp(a: Duration, b: Duration) -> int {
    let l = a.scaled_seconds() * pow10(b.factor().scale as nat);
    let r = b.scaled_seconds() * pow10(a.factor().scale as nat);
    if l < r {
        -1
    } else if l == r {
        0
    } else {
        1
    }
}

/// How `l` compares to `r`: -1, 0 or 1.
pub open spec fn sign_cmp(l: int, r: int) -> int {
    if l < r {
        -1
    } else if l == r {
        0
    } else {
        1
    }
}

proof fn lemma_pow10(a: nat, b: nat)
    ensures
        pow10(a + b) == pow10(a) * pow10(b),
        pow10(a) >= 1,
    decreases a,
{
    if a > 0 {
        lemma_pow10((a - 1) as nat, b);
        assert(pow10(a + b) == 10 * pow10((a - 1 + b) as nat));
        assert(pow10((a - 1 + b) as nat) == pow10((a - 1) as nat) * pow10(b));
        assert(10 * (pow10((a - 1) as nat) * pow10(b)) == (10 * pow10((a - 1) as nat)) * pow10(b)) by (nonlinear_arith);
        assert(pow10(a) == 10 * pow10((a - 1) as nat));
    } else {
        assert(a + b == b);
        assert(pow10(a) == 1);
    }
}

proof fn lemma_sign_scale(l: int, r: int, p: int)
    requires
        p > 0,
    ensures
        sign_cmp(l * p, r * p) == sign_cmp(l, r),
{
    if l < r {
        assert(l * p < r * p) by (nonlinear_arith)
            requires l < r, p > 0;
    } else if l == r {
    } else {
        assert(l * p > r * p) by (nonlinear_arith)
            requires l > r, p > 0;
    }
}

/// Compares `x * 10^k` with `y`.
fn scaled_cmp(x: u128, k: u32, y: u128) -> (r: i8)
    requires
        x < 0x1_0000_0000_0000_0000_0000_0000,
        y < 0x1_0000_0000_0000_0000_0000_0000,
    ensures
        r as int == sign_cmp(x * pow10(k as nat), y as int),
{
    let mut v: u128 = x;
    let mut i: u32 = 0;
    assert(pow10(0) == 1);
    while i < k
        invariant
            i <= k,
            v as int == x * pow10(i as nat),
            v < 0x10_0000_0000_0000_0000_0000_0000,
            y < 0x1_0000_0000_0000_0000_0000_0000,
        decreases k - i,
    {
        proof {
            lemma_pow10(i as nat, (k - i) as nat);
            assert((i + (k - i)) as nat == k as nat);
        }
        if v == 0 {
            assert(x == 0) by (nonlinear_arith)
                requires 0 == x * pow10(i as nat), pow10(i as nat) >= 1, x >= 0;
            assert(x * pow10(k as nat) == 0) by (nonlinear_arith)
                requires x == 0;
            return if y == 0 { 0 } else { -1 };
        }
        if v > y {
            proof {
                lemma_pow10((k - i) as nat, 0);
                assert(x * pow10(k as nat) == v * pow10((k - i) as nat)) by (nonlinear_arith)
                    requires v == x * pow10(i as nat), pow10(k as nat) == pow10(i as nat) * pow10((k - i) as nat);
                assert(v * pow10((k - i) as nat) >= v) by (nonlinear_arith)
                    requires pow10((k - i) as nat) >= 1, v >= 0;
            }
            return 1;
        }
        v = v * 10;
        i = i + 1;
        assert(v as int == x * pow10(i as nat)) by (nonlinear_arith)
            requires v == 10 * (x * pow10((i - 1) as nat)), pow10(i as nat) == 10 * pow10((i - 1) as nat);
    }
    if v < y {
        -1
    } else if v == y {
        0
    } else {
        1
    }
}

/// Compares the lengths of two durations.
pub fn compare_durations(a: &Duration, b: &Duration) -> (r: std::cmp::Ordering)
    ensures
        (r == std::cmp::Ordering::Less) == (duration_cmp(*a, *b) == -1),
        (r == std::cmp::Ordering::Equal) == (duration_cmp(*a, *b) == 0),
        (r == std::cmp::Ordering::Greater) == (duration_cmp(*a, *b) == 1),
{
    let fa = a.get_factor();
    let fb = b.get_factor();
    let ua = a.get_unit_seconds();
    let ub = b.get_unit_seconds();
    assert(fa.digits as int * ua as int <= 0xffff_ffff_ffff_ffff * 31536000int) by (nonlinear_arith)
        requires fa.digits <= 0xffff_ffff_ffff_ffffu64, ua <= 31536000;
    assert(fb.digits as int * ub as int <= 0xffff_ffff_ffff_ffff * 31536000int) by (nonlinear_arith)
        requires fb.digits <= 0xffff_ffff_ffff_ffffu64, ub <= 31536000;
    let na: u128 = fa.digits as u128 * ua as u128;
    let nb: u128 = fb.digits as u128 * ub as u128;
    let ghost sa = fa.scale as nat;
    let ghost sb = fb.scale as nat;
    let ghost ml = na * pow10(sb);
    let ghost mr = nb * pow10(sa);
    proof {
        lemma_pow10(sa, 0);
        lemma_pow10(sb, 0);
    }
    let mag: i8 = if fa.scale <= fb.scale {
        let c = scaled_cmp(na, fb.scale - fa.scale, nb);
        proof {
            lemma_pow10((sb - sa) as nat, sa);
            assert(((sb - sa) as nat + sa) as nat == sb);
            lemma_sign_scale(na * pow10((sb - sa) as nat), nb as int, pow10(sa) as int);
            assert(na * pow10((sb - sa) as nat) * pow10(sa) == na * pow10(sb)) by (nonlinear_arith)
                requires pow10(sb) == pow10((sb - sa) as nat) * pow10(sa);
        }
        c
    } else {
        let c = scaled_cmp(nb, fa.scale - fb.scale, na);
        proof {
            lemma_pow10((sa - sb) as nat, sb);
            assert(((sa - sb) as nat + sb) as nat == sa);
            lemma_sign_scale(nb * pow10((sa - sb) as nat), na as int, pow10(sb) as int);
            assert(nb * pow10((sa - sb) as nat) * pow10(sb) == nb * pow10(sa)) by (nonlinear_arith)
                requires pow10(sa) == pow10((sa - sb) as nat) * pow10(sb);
        }
        -c
    };
    assert(mag as int == sign_cmp(ml, mr));
    proof {
        assert(na != 0 ==> ml > 0) by (nonlinear_arith)
            requires ml == na * pow10(sb), pow10(sb) >= 1, na >= 0;
        assert(nb != 0 ==> mr > 0) by (nonlinear_arith)
            requires mr == nb * pow10(sa), pow10(sa) >= 1, nb >= 0;
        assert(na == 0 ==> ml == 0) by (nonlinear_arith)
            requires ml == na * pow10(sb);
        assert(nb == 0 ==> mr == 0) by (nonlinear_arith)
            requires mr == nb * pow10(sa);
        let li = a.scaled_seconds() * pow10(sb);
        let ri = b.scaled_seconds() * pow10(sa);
        assert(li == (if fa.negative { -ml } else { ml })) by (nonlinear_arith)
            requires
                ml == na * pow10(sb),
                na == fa.digits as int * ua as int,
                a.scaled_seconds() == (if fa.negative { -(fa.digits as int * ua as int) } else { fa.digits as int * ua as int }),
                li == a.scaled_seconds() * pow10(sb),
        ;
        assert(ri == (if fb.negative { -mr } else { mr })) by (nonlinear_arith)
            requires
                mr == nb * pow10(sa),
                nb == fb.digits as int * ub as int,
                b.scaled_seconds() == (if fb.negative { -(fb.digits as int * ub as int) } else { fb.digits as int * ub as int }),
                ri == b.scaled_seconds() * pow10(sa),
        ;
    }
    let neg_l = fa.negative && na != 0;
    let neg_r = fb.negative && nb != 0;
    let c: i8 = if neg_l && !neg_r {
        -1
    } else if !neg_l && neg_r {
        1
    } else if neg_l && neg_r {
        -mag
    } else {
        mag
    };
    if c < 0 {
        std::cmp::Ordering::Less
    } else if c == 0 {
        std::cmp::Ordering::Equal
    } else {
        std::cmp::Ordering::Greater
    }
}

impl PartialEq for Duration {
    fn eq(&self, other: &Duration) -> (r: bool) {
        match compare_durations(self, other) {
            std::cmp::Ordering::Equal => true,
            _ => false,
        }
    }
}

impl vstd::std_specs::cmp::PartialEqSpecImpl for Duration {
    open spec fn obeys_eq_spec() -> bool {
        true
    }

    open spec fn eq_spec(&self, other: &Duration) -> bool {
        duration_cmp(*self, *other) == 0
    }
}

/// A value per span of time, such as cubic metres a year.
#[derive(Debug)]
pub struct Rate {
    pub value: Decimal,
    pub measurement: String,
    pub per: Duration,
}

/// The mathematical value of a rate.
pub struct RateView {
    pub value: Decimal,
    pub measurement: Seq<char>,
    pub per: Duration,
}

impl View for Rate {
    type V = RateView;

    open spec fn view(&self) -> RateView {
        RateView { value: self.value, measurement: self.measurement@, per: self.per }
    }
}

/// A number with a unit.
#[derive(Debug)]
pub struct Quantity {
    pub value: Decimal,
    pub unit: String,
}

/// Either a single value or a pair of values.
#[derive(Debug, PartialEq, Eq)]
pub enum SingleOrPair<P0, P1> {
    Single(P0),
    Pair(P0, P1),
}

/// A value of the expected shape, or the text as read where it did
/// not have that shape.
#[derive(Debug, PartialEq, Eq)]
pub enum OrFallback<T> {
    Expected(T),
    Fallback(String),
}

/// The duration that a time code gives with a factor.
pub open spec fn duration_of(code: Seq<char>, f: Decimal) -> Option<Duration> {
    if code == "s"@ {
        Some(Duration::Seconds(f))
    } else if code == "m"@ || code == "min"@ {
        Some(Duration::Minutes(f))
    } else if code == "h"@ {
        Some(Duration::Hours(f))
    } else if code == "d"@ {
        Some(Duration::Days(f))
    } else if code == "w"@ || code == "wo"@ {
        Some(Duration::Weeks(f))
    } else if code == "M"@ || code == "mo"@ {
        Some(Duration::Months(f))
    } else if code == "a"@ || code == "y"@ {
        Some(Duration::Years(f))
    } else {
        None
    }
}

/// Whether `c` may stand in the factor of a time span.
pub open spec fn is_factor_char(c: char) -> bool {
    ('0' <= c && c <= '9') || c == '.' || c == ','
}

/// The length of the longest prefix of factor characters.
pub open spec fn factor_len(s: Seq<char>) -> nat
    decreases s.len(),
{
    if s.len() > 0 && is_factor_char(s[0]) {
        1 + factor_len(s.drop_first())
    } else {
        0
    }
}

/// The factor of a time span: the number its text writes, or one where it
/// writes none.
pub open spec fn factor_of(s: Seq<char>) -> Decimal {
    match decimal_of(s) {
        Some(f) => f,
        None => Decimal { negative: false, digits: 1, scale: 0 },
    }
}

/// The rate that `s` writes: `<value> <measurement>/<factor><time code>`,
/// where the value is a decimal number, the measurement is not empty and
/// holds no `/`, the factor is made of digits, points and commas (one where
/// it does not write a number), and the time code is one of
/// s, m, min, h, d, w, wo, M, mo, a, y.
pub open spec fn rate_of(s: Seq<char>) -> Option<RateView> {
    let sp = index_of(s, ' ') as int;
    let value = s.subrange(0, sp);
    let unit = if sp < s.len() { s.subrange(sp + 1, s.len() as int) } else { Seq::empty() };
    let sl = index_of(unit, '/') as int;
    let tail = if sl < unit.len() { unit.subrange(sl + 1, unit.len() as int) } else { Seq::empty() };
    let fl = factor_len(tail) as int;
    if sp < s.len() && decimal_of(value) is Some && 0 < sl < unit.len()
        && duration_of(tail.subrange(fl, tail.len() as int), factor_of(tail.subrange(0, fl))) is Some {
        Some(RateView {
            value: decimal_of(value)->0,
            measurement: unit.subrange(0, sl),
            per: duration_of(tail.subrange(fl, tail.len() as int), factor_of(tail.subrange(0, fl)))->0,
        })
    } else {
        None
    }
}

proof fn lemma_factor_len(s: Seq<char>)
    ensures
        factor_len(s) <= s.len(),
        forall|i: int| 0 <= i < factor_len(s) ==> is_factor_char(#[trigger] s[i]),
        factor_len(s) < s.len() ==> !is_factor_char(s[factor_len(s) as int]),
    decreases s.len(),
{
    if s.len() > 0 && is_factor_char(s[0]) {
        lemma_factor_len(s.drop_first());
        assert forall|i: int| 0 <= i < factor_len(s) implies is_factor_char(#[trigger] s[i]) by {
            if i > 0 {
                assert(s[i] == s.drop_first()[i - 1]);
            }
        }
    }
}

/// Whether `a[from..to]` holds the characters of `b`.
pub fn chars_eq(a: &Vec<char>, from: usize, to: usize, b: &str) -> (r: bool)
    requires
        from <= to <= a@.len(),
    ensures
        r == (a@.subrange(from as int, to as int) == b@),
{
    let n = b.unicode_len();
    if to - from != n {
        return false;
    }
    let mut i: usize = 0;
    while i < n
        invariant
            n == b@.len(),
            to - from == n,
            from <= to <= a@.len(),
            i <= n,
            a@.subrange(from as int, from + i) == b@.subrange(0, i as int),
        decreases n - i,
    {
        if a[from + i] != b.get_char(i) {
            assert(a@.subrange(from as int, to as int)[i as int] == a@[from + i]);
            return false;
        }
        assert(a@.subrange(from as int, from + i + 1) =~= a@.subrange(from as int, from + i).push(a@[from + i]));
        assert(b@.subrange(0, i + 1) =~= b@.subrange(0, i as int).push(b@[i as int]));
        i = i + 1;
    }
    assert(b@.subrange(0, n as int) =~= b@);
    true
}

/// The duration that a time code gives with a factor.
fn duration_for(s: &Vec<char>, from: usize, f: Decimal) -> (r: Option<Duration>)
    requires
        from <= s@.len(),
    ensures
        r == duration_of(s@.subrange(from as int, s@.len() as int), f),
{
    let n = s.len();
    proof {
        reveal_strlit("s");
        reveal_strlit("m");
        reveal_strlit("min");
        reveal_strlit("h");
        reveal_strlit("d");
        reveal_strlit("w");
        reveal_strlit("wo");
        reveal_strlit("M");
        reveal_strlit("mo");
        reveal_strlit("a");
        reveal_strlit("y");
    }
    if chars_eq(s, from, n, "s") {
        Some(Duration::Seconds(f))
    } else if chars_eq(s, from, n, "m") || chars_eq(s, from, n, "min") {
        Some(Duration::Minutes(f))
    } else if chars_eq(s, from, n, "h") {
        Some(Duration::Hours(f))
    } else if chars_eq(s, from, n, "d") {
        Some(Duration::Days(f))
    } else if chars_eq(s, from, n, "w") || chars_eq(s, from, n, "wo") {
        Some(Duration::Weeks(f))
    } else if chars_eq(s, from, n, "M") || chars_eq(s, from, n, "mo") {
        Some(Duration::Months(f))
    } else if chars_eq(s, from, n, "a") || chars_eq(s, from, n, "y") {
        Some(Duration::Years(f))
    } else {
        None
    }
}

/// Reads a rate such as `12 m³/2a`.
#[verifier::rlimit(100)]
pub fn parse_rate(text: &str) -> (r: Option<Rate>)
    ensures
        match r {
            Some(rate) => rate_of(text@) == Some(rate@),
            None => rate_of(text@) is None,
        },
        r matches Some(rate) ==> rate.value.wf() && rate.per.wf(),
{
    let s = chars_of(text);
    let sp = find_char(&s, 0, ' ');
    assert(s@.subrange(0, s@.len() as int) =~= s@);
    if sp >= s.len() {
        return None;
    }
    let value_chars = slice_chars(&s, 0, sp);
    let value = match parse_decimal(&value_chars) {
        Some(v) => v,
        None => {
            return None;
        },
    };
    let unit_start = sp + 1;
    let ghost unit = s@.subrange(unit_start as int, s@.len() as int);
    let sl = find_char(&s, unit_start, '/');
    if sl == unit_start || sl >= s.len() {
        return None;
    }
    let tail_start = sl + 1;
    let ghost tail = s@.subrange(tail_start as int, s@.len() as int);
    assert(tail =~= unit.subrange(sl - unit_start + 1, unit.len() as int));
    proof {
        lemma_factor_len(tail);
    }
    let mut f_end: usize = tail_start;
    while f_end < s.len() && (('0' <= s[f_end] && s[f_end] <= '9') || s[f_end] == '.' || s[f_end] == ',')
        invariant
            tail_start <= f_end <= s@.len(),
            tail == s@.subrange(tail_start as int, s@.len() as int),
            f_end - tail_start <= factor_len(tail),
            factor_len(tail) <= tail.len(),
            forall|i: int| 0 <= i < factor_len(tail) ==> is_factor_char(#[trigger] tail[i]),
            factor_len(tail) < tail.len() ==> !is_factor_char(tail[factor_len(tail) as int]),
        decreases s@.len() - f_end,
    {
        assert(tail[f_end - tail_start] == s@[f_end as int]);
        f_end = f_end + 1;
    }
    proof {
        if f_end < s@.len() {
            assert(tail[f_end - tail_start] == s@[f_end as int]);
        }
        assert(f_end - tail_start == factor_len(tail));
    }
    let factor_chars = slice_chars(&s, tail_start, f_end);
    let factor = match parse_decimal(&factor_chars) {
        Some(f) => f,
        None => Decimal { negative: false, digits: 1, scale: 0 },
    };
    assert(factor_chars@ =~= tail.subrange(0, factor_len(tail) as int));
    assert(s@.subrange(f_end as int, s@.len() as int) =~= tail.subrange(factor_len(tail) as int, tail.len() as int));
    let per = match duration_for(&s, f_end, factor) {
        Some(d) => d,
        None => {
            return None;
        },
    };
    let measurement = string_of_range(&s, unit_start, sl);
    assert(measurement@ =~= unit.subrange(0, sl - unit_start));
    assert(value_chars@ =~= text@.subrange(0, sp as int));
    Some(Rate { value, measurement, per })
}

/// Whether `code` is one of the time codes of the rate grammar.
pub open spec fn is_time_code(code: Seq<char>) -> bool {
    code == "s"@ || code == "m"@ || code == "min"@ || code == "h"@ || code == "d"@ || code == "w"@
        || code == "wo"@ || code == "M"@ || code == "mo"@ || code == "a"@ || code == "y"@
}

proof fn lemma_index_of_concat(a: Seq<char>, b: Seq<char>, c: char)
    requires
        forall|i: int| 0 <= i < a.len() ==> a[i] != c,
    ensures
        index_of(a + b, c) == a.len() + index_of(b, c),
    decreases a.len(),
{
    if a.len() > 0 {
        assert((a + b).drop_first() =~= a.drop_first() + b);
        lemma_index_of_concat(a.drop_first(), b, c);
    } else {
        assert(a + b =~= b);
    }
}

proof fn lemma_factor_len_concat(f: Seq<char>, code: Seq<char>)
    requires
        forall|i: int| 0 <= i < f.len() ==> is_factor_char(#[trigger] f[i]),
        code.len() > 0,
        !is_factor_char(code[0]),
    ensures
        factor_len(f + code) == f.len(),
    decreases f.len(),
{
    if f.len() > 0 {
        assert((f + code).drop_first() =~= f.drop_first() + code);
        assert forall|i: int| 0 <= i < f.drop_first().len() implies is_factor_char(#[trigger] f.drop_first()[i]) by {
            assert(f.drop_first()[i] == f[i + 1]);
        }
        lemma_factor_len_concat(f.drop_first(), code);
    } else {
        assert(f + code =~= code);
    }
}

/// A rate written as `<value> <measurement>/<factor><time code>`, with a
/// number as value, a measurement without `/`, a factor made of digits,
/// points and commas (possibly none) and a supported time code, is always
/// read as a rate, never as fallback text: the rate has that value and
/// measurement, and the span of the time code with the factor (one where
/// the factor writes no number).
pub proof fn lemma_rate_grammar_total(value: Seq<char>, measurement: Seq<char>, factor: Seq<char>, code: Seq<char>)
    requires
        decimal_of(value) is Some,
        forall|i: int| 0 <= i < value.len() ==> value[i] != ' ',
        measurement.len() > 0,
        forall|i: int| 0 <= i < measurement.len() ==> measurement[i] != '/',
        forall|i: int| 0 <= i < factor.len() ==> is_factor_char(#[trigger] factor[i]),
        is_time_code(code),
    ensures
        rate_of(value + " "@ + measurement + "/"@ + factor + code) == Some(RateView {
            value: decimal_of(value)->0,
            measurement,
            per: duration_of(code, factor_of(factor))->0,
        }),
        duration_of(code, factor_of(factor)) is Some,
{
    reveal_strlit(" ");
    reveal_strlit("/");
    reveal_strlit("s");
    reveal_strlit("m");
    reveal_strlit("min");
    reveal_strlit("h");
    reveal_strlit("d");
    reveal_strlit("w");
    reveal_strlit("wo");
    reveal_strlit("M");
    reveal_strlit("mo");
    reveal_strlit("a");
    reveal_strlit("y");
    let tail = factor + code;
    let unit = measurement + "/"@ + tail;
    let s = value + " "@ + measurement + "/"@ + factor + code;
    assert(s =~= value + (" "@ + unit));
    lemma_index_of_concat(value, " "@ + unit, ' ');
    assert(index_of(" "@ + unit, ' ') == 0);
    let sp = value.len() as int;
    assert(s.subrange(0, sp) =~= value);
    assert(s.subrange(sp + 1, s.len() as int) =~= unit);
    assert(unit =~= measurement + ("/"@ + tail));
    lemma_index_of_concat(measurement, "/"@ + tail, '/');
    assert(index_of("/"@ + tail, '/') == 0);
    let sl = measurement.len() as int;
    assert(unit.subrange(sl + 1, unit.len() as int) =~= tail);
    assert(unit.subrange(0, sl) =~= measurement);
    lemma_factor_len_concat(factor, code);
    assert(tail.subrange(factor.len() as int, tail.len() as int) =~= code);
    assert(tail.subrange(0, factor.len() as int) =~= factor);
}

/// How two texts compare in the order of their characters: -1, 0 or 1.
pub open spec fn lex_cmp(a: Seq<char>, b: Seq<char>) -> int
    decreases a.len(),
{
    if a.len() == 0 && b.len() == 0 {
        0
    } else if a.len() == 0 {
        -1
    } else if b.len() == 0 {
        1
    } else if (a[0] as u32) < (b[0] as u32) {
        -1
    } else if (a[0] as u32) > (b[0] as u32) {
        1
    } else {
        lex_cmp(a.drop_first(), b.drop_first())
    }
}

proof fn lemma_lex_cmp_antisymmetric(a: Seq<char>, b: Seq<char>)
    ensures
        lex_cmp(a, b) == -lex_cmp(b, a),
        -1 <= lex_cmp(a, b) <= 1,
    decreases a.len(),
{
    if a.len() > 0 && b.len() > 0 && (a[0] as u32) == (b[0] as u32) {
        lemma_lex_cmp_antisymmetric(a.drop_first(), b.drop_first());
    }
}

/// Compares two texts in the order of their characters.
pub fn compare_text(a: &str, b: &str) -> (r: i8)
    ensures
        r as int == lex_cmp(a@, b@),
{
    let n = a.unicode_len();
    let m = b.unicode_len();
    let mut i: usize = 0;
    assert(a@.subrange(0, n as int) =~= a@);
    assert(b@.subrange(0, m as int) =~= b@);
    while i < n && i < m
        invariant
            n == a@.len(),
            m == b@.len(),
            i <= n,
            i <= m,
            lex_cmp(a@, b@) == lex_cmp(a@.subrange(i as int, n as int), b@.subrange(i as int, m as int)),
        decreases n - i,
    {
        let ca = a.get_char(i);
        let cb = b.get_char(i);
        let ghost sa = a@.subrange(i as int, n as int);
        let ghost sb = b@.subrange(i as int, m as int);
        assert(sa[0] == ca && sb[0] == cb);
        if (ca as u32) < (cb as u32) {
            return -1;
        }
        if (ca as u32) > (cb as u32) {
            return 1;
        }
        assert(sa.drop_first() =~= a@.subrange(i + 1, n as int));
        assert(sb.drop_first() =~= b@.subrange(i + 1, m as int));
        i = i + 1;
    }
    if i == n && i == m {
        0
    } else if i == n {
        -1
    } else {
        1
    }
}

/// An entry of a rate record as a value: the rate, or the text it fell
/// back to.
pub type EntryView = Result<RateView, Seq<char>>;

/// The value of an entry of a rate record.
pub open spec fn entry_view(e: OrFallback<Rate>) -> EntryView {
    match e {
        OrFallback::Expected(r) => Ok(r@),
        OrFallback::Fallback(s) => Err(s@),
    }
}

/// How two entries of a rate record compare: rates by their span of time,
/// before any fallback text; fallback texts by their characters.
pub open spec fn entry_cmp(a: EntryView, b: EntryView) -> int {
    match (a, b) {
        (Ok(x), Ok(y)) => duration_cmp(x.per, y.per),
        (Ok(_), Err(_)) => -1,
        (Err(_), Ok(_)) => 1,
        (Err(s), Err(t)) => lex_cmp(s, t),
    }
}

/// Whether the rate of an entry is within the bounds of its numbers.
pub open spec fn entry_wf(e: EntryView) -> bool {
    match e {
        Ok(r) => r.per.wf(),
        Err(_) => true,
    }
}

proof fn lemma_entry_cmp_antisymmetric(a: EntryView, b: EntryView)
    ensures
        entry_cmp(a, b) == -entry_cmp(b, a),
        -1 <= entry_cmp(a, b) <= 1,
{
    match (a, b) {
        (Err(s), Err(t)) => lemma_lex_cmp_antisymmetric(s, t),
        _ => {},
    }
}

/// Compares two entries of a rate record.
pub fn compare_entries(a: &OrFallback<Rate>, b: &OrFallback<Rate>) -> (r: i8)
    requires
        entry_wf(entry_view(*a)),
        entry_wf(entry_view(*b)),
    ensures
        r as int == entry_cmp(entry_view(*a), entry_view(*b)),
{
    match (a, b) {
        (OrFallback::Expected(x), OrFallback::Expected(y)) => {
            match compare_durations(&x.per, &y.per) {
                std::cmp::Ordering::Less => -1,
                std::cmp::Ordering::Equal => 0,
                std::cmp::Ordering::Greater => 1,
            }
        },
        (OrFallback::Expected(_), OrFallback::Fallback(_)) => -1,
        (OrFallback::Fallback(_), OrFallback::Expected(_)) => 1,
        (OrFallback::Fallback(s), OrFallback::Fallback(t)) => compare_text(s.as_str(), t.as_str()),
    }
}

/// The index of the first entry above `x`, or the length.
pub open spec fn first_above(es: Seq<EntryView>, x: EntryView) -> nat
    decreases es.len(),
{
    if es.len() == 0 {
        0
    } else if entry_cmp(es[0], x) == 1 {
        0
    } else {
        1 + first_above(es.drop_first(), x)
    }
}

/// The entries after adding `x`: unchanged where an entry compares equal
/// to it, else with `x` before the first entry above it.
pub open spec fn inserted(es: Seq<EntryView>, x: EntryView) -> Seq<EntryView> {
    if exists|i: int| 0 <= i < es.len() && entry_cmp(#[trigger] es[i], x) == 0 {
        es
    } else {
        es.insert(first_above(es, x) as int, x)
    }
}

/// Rates of one kind, ordered by their spans of time; of entries that
/// compare equal, the first one inserted is kept.
#[derive(Debug)]
pub struct RateRecord {
    pub entries: Vec<OrFallback<Rate>>,
}

impl View for RateRecord {
    type V = Seq<EntryView>;

    open spec fn view(&self) -> Seq<EntryView> {
        self.entries@.map_values(|e: OrFallback<Rate>| entry_view(e))
    }
}

impl RateRecord {
    /// Each entry is below the next, and every rate is within bounds.
    pub open spec fn wf(&self) -> bool {
        &&& forall|i: int| 0 <= i < self@.len() ==> entry_wf(#[trigger] self@[i])
        &&& forall|i: int| 0 <= i < self@.len() - 1 ==> entry_cmp(#[trigger] self@[i], self@[i + 1]) == -1
    }

    /// An empty record.
    pub fn new() -> (r: Self)
        ensures
            r@.len() == 0,
            r.wf(),
    {
        let r = RateRecord { entries: Vec::new() };
        assert(r@ =~= Seq::<EntryView>::empty());
        r
    }

    /// Whether the record holds no entry.
    pub fn is_empty(&self) -> (r: bool)
        ensures
            r == (self@.len() == 0),
    {
        self.entries.len() == 0
    }

    /// Adds an entry unless one that compares equal is held already; it
    /// goes before the first entry above it.
    pub fn insert(&mut self, x: OrFallback<Rate>)
        requires
            old(self).wf(),
            entry_wf(entry_view(x)),
        ensures
            final(self).wf(),
            final(self)@ == inserted(old(self)@, entry_view(x)),
    {
        let ghost es = self@;
        let ghost xv = entry_view(x);
        let n = self.entries.len();
        let mut i: usize = 0;
        let mut above: usize = n;
        while i < n
            invariant
                n == es.len(),
                es == self@,
                self.entries@.len() == n,
                self.wf(),
                xv == entry_view(x),
                entry_wf(xv),
                i <= n,
                above <= i || above == n,
                forall|k: int| 0 <= k < i ==> entry_cmp(#[trigger] es[k], xv) != 0,
                above == n ==> forall|k: int| 0 <= k < i ==> entry_cmp(#[trigger] es[k], xv) != 1,
                above < n ==> above == first_above(es, xv) && entry_cmp(es[above as int], xv) == 1,
                above < n ==> forall|k: int| 0 <= k < above ==> entry_cmp(#[trigger] es[k], xv) != 1,
            decreases n - i,
        {
            assert(es[i as int] == entry_view(self.entries@[i as int]));
            let c = compare_entries(&self.entries[i], &x);
            if c == 0 {
                assert(entry_cmp(es[i as int], xv) == 0);
                return;
            }
            if c == 1 && above == n {
                proof {
                    lemma_first_above(es, xv, i as int);
                }
                above = i;
            }
            i = i + 1;
        }
        proof {
            if above == n {
                lemma_first_above(es, xv, n as int);
            }
            assert(!(exists|i: int| 0 <= i < es.len() && entry_cmp(#[trigger] es[i], xv) == 0));
        }
        self.entries.insert(above, x);
        proof {
            let f = self@;
            assert(f =~= es.insert(above as int, xv));
            assert forall|k: int| 0 <= k < f.len() implies entry_wf(#[trigger] f[k]) by {
                if k < above {
                    assert(f[k] == es[k]);
                } else if k > above {
                    assert(f[k] == es[k - 1]);
                }
            }
            assert forall|k: int| 0 <= k < f.len() - 1 implies entry_cmp(#[trigger] f[k], f[k + 1]) == -1 by {
                if k + 1 < above {
                    assert(f[k] == es[k] && f[k + 1] == es[k + 1]);
                } else if k + 1 == above {
                    assert(f[k] == es[k] && f[k + 1] == xv);
                    lemma_entry_cmp_antisymmetric(es[k], xv);
                } else if k == above {
                    assert(f[k] == xv && f[k + 1] == es[k]);
                    lemma_entry_cmp_antisymmetric(xv, es[k]);
                } else {
                    assert(f[k] == es[k - 1] && f[k + 1] == es[k]);
                }
            }
        }
    }
}

proof fn lemma_first_above(es: Seq<EntryView>, x: EntryView, i: int)
    requires
        0 <= i <= es.len(),
        forall|k: int| 0 <= k < i ==> entry_cmp(#[trigger] es[k], x) != 1,
        i < es.len() ==> entry_cmp(es[i], x) == 1,
    ensures
        first_above(es, x) == i,
    decreases i,
{
    if i > 0 {
        let d = es.drop_first();
        assert forall|k: int| 0 <= k < i - 1 implies entry_cmp(#[trigger] d[k], x) != 1 by {
            assert(d[k] == es[k + 1]);
        }
        if i < es.len() {
            assert(d[i - 1] == es[i]);
        }
        lemma_first_above(d, x, i - 1);
    }
}

} // verus!
