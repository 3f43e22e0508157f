//! Numbers read from text: unsigned integers and decimal numbers.
use vstd::prelude::*;

verus! {

/// Whether `c` is an ASCII digit.
pub open spec fn is_digit(c: char) -> bool {
    '0' <= c && c <= '9'
}

/// Whether every character of `s` is an ASCII digit.
pub open spec fn all_digits(s: Seq<char>) -> bool {
    forall|i: int| 0 <= i < s.len() ==> is_digit(#[trigger] s[i])
}

/// The number that a string of digits writes in base ten.
pub open spec fn digits_value(s: Seq<char>) -> nat
    decreases s.len(),
{
    if s.len() == 0 {
        0
    } else {
        digits_value(s.drop_last()) * 10 + (s.last() as nat - '0' as nat) as nat
    }
}

/// The unsigned integer that `s` writes: an optional `+` and one or more
/// digits, of a value that fits in 64 bits.
pub open spec fn u64_of(s: Seq<char>) -> Option<u64> {
    let d = if s.len() > 0 && s[0] == '+' { s.drop_first() } else { s };
    if d.len() > 0 && all_digits(d) && digits_value(d) <= u64::MAX {
        Some(digits_value(d) as u64)
    } else {
        None
    }
}

/// Reads an unsigned integer written in base ten.
pub fn parse_u64(s: &Vec<char>) -> (r: Option<u64>)
    ensures
        r == u64_of(s@),
{
    let mut i: usize = 0;
    if s.len() > 0 && s[0] == '+' {
        i = 1;
    }
    let ghost d = if s@.len() > 0 && s@[0] == '+' { s@.drop_first() } else { s@ };
    let start = i;
    assert(d =~= s@.subrange(start as int, s@.len() as int));
    if i >= s.len() {
        return None;
    }
    let mut acc: u64 = 0;
    while i < s.len()
        invariant
            start <= i <= s@.len(),
            d == s@.subrange(start as int, s@.len() as int),
            d == (if s@.len() > 0 && s@[0] == '+' { s@.drop_first() } else { s@ }),
            all_digits(s@.subrange(start as int, i as int)),
            acc as nat == digits_value(s@.subrange(start as int, i as int)),
        decreases s@.len() - i,
    {
        let c = s[i];
        let prefix = Ghost(s@.subrange(start as int, i as int));
        let next = Ghost(s@.subrange(start as int, i + 1));
        assert(next@.drop_last() =~= prefix@);
        assert(d[i - start] == c);
        if !('0' <= c && c <= '9') {
            assert(!is_digit(d[i - start]));
            return None;
        }
        let digit = (c as u32 - '0' as u32) as u64;
        assert(next@.last() == c);
        assert(digits_value(next@) == acc * 10 + digit);
        assert(d.subrange(0, i - start + 1) =~= next@);
        if acc > 1844674407370955161 || (acc == 1844674407370955161 && digit > 5) {
            assert(acc * 10 + digit > u64::MAX) by (nonlinear_arith)
                requires
                    acc > 1844674407370955161 || (acc == 1844674407370955161 && digit > 5),
            ;
            proof {
                lemma_digits_grow(d, (i - start + 1) as int);
            }
            return None;
        }
        acc = acc * 10 + digit;
        i = i + 1;
        assert(all_digits(next@)) by {
            assert forall|k: int| 0 <= k < next@.len() implies is_digit(#[trigger] next@[k]) by {
                if k < next@.len() - 1 {
                    assert(next@[k] == prefix@[k]);
                }
            }
        }
    }
    assert(s@.subrange(start as int, s@.len() as int) == d);
    Some(acc)
}

proof fn lemma_digits_prefix_le(s: Seq<char>, k: int)
    requires
        0 <= k <= s.len(),
        all_digits(s),
    ensures
        digits_value(s.subrange(0, k)) <= digits_value(s),
    decreases s.len(),
{
    if k < s.len() {
        assert(s.drop_last().subrange(0, k) =~= s.subrange(0, k));
        assert(all_digits(s.drop_last())) by {
            assert forall|i: int| 0 <= i < s.drop_last().len() implies is_digit(#[trigger] s.drop_last()[i]) by {
                assert(s.drop_last()[i] == s[i]);
            }
        }
        lemma_digits_prefix_le(s.drop_last(), k);
    } else {
        assert(s.subrange(0, k) =~= s);
    }
}

/// A prefix of digits bounds the value of the whole from below.
proof fn lemma_digits_grow(d: Seq<char>, k: int)
    requires
        0 < k <= d.len(),
        digits_value(d.subrange(0, k)) > u64::MAX,
    ensures
        !(all_digits(d) && digits_value(d) <= u64::MAX),
{
    if all_digits(d) {
        lemma_digits_prefix_le(d, k);
    }
}

/// The largest digit string a decimal number may hold.
pub const MAX_DIGITS: u64 = 999_999_999_999_999_999;

/// The most digits a decimal number may have after its point.
pub const MAX_SCALE: u32 = 9;

/// A decimal number: `digits / 10^scale`, negated where `negative` is set.
/// It stands for the numbers that the reports write, which have at most
/// eighteen significant digits and nine after the point.
#[derive(Debug, Clone, Copy, PartialEq, Eq, Structural)]
pub struct Decimal {
    pub negative: bool,
    pub digits: u64,
    pub scale: u32,
}

impl Decimal {
    /// Whether the number stays within the bounds above.
    pub open spec fn wf(self) -> bool {
        self.digits <= MAX_DIGITS && self.scale <= MAX_SCALE
    }
}

/// The index of the first `c` in `s`, or its length.
pub open spec fn index_of(s: Seq<char>, c: char) -> nat
    decreases s.len(),
{
    if s.len() == 0 {
        0
    } else if s[0] == c {
        0
    } else {
        1 + index_of(s.drop_first(), c)
    }
}

/// `s` without a leading sign.
pub open spec fn unsigned_part(s: Seq<char>) -> Seq<char> {
    if s.len() > 0 && (s[0] == '-' || s[0] == '+') {
        s.drop_first()
    } else {
        s
    }
}

/// The digits before the point.
pub open spec fn integer_part(body: Seq<char>) -> Seq<char> {
    body.subrange(0, index_of(body, '.') as int)
}

/// The digits after the point (none where there is no point).
pub open spec fn fraction_part(body: Seq<char>) -> Seq<char> {
    let p = index_of(body, '.') as int;
    if p < body.len() {
        body.subrange(p + 1, body.len() as int)
    } else {
        Seq::empty()
    }
}

/// The decimal number that `s` writes: an optional sign, digits, and an
/// optional point followed by digits, with at least one digit in all and
/// within the bounds of [`Decimal`].
pub open spec fn decimal_of(s: Seq<char>) -> Option<Decimal> {
    let body = unsigned_part(s);
    let int_part = integer_part(body);
    let frac = fraction_part(body);
    let all = int_part + frac;
    if all_digits(int_part) && all_digits(frac) && all.len() > 0 && digits_value(all) <= MAX_DIGITS
        && frac.len() <= MAX_SCALE {
        Some(Decimal { negative: s.len() > 0 && s[0] == '-', digits: digits_value(all) as u64, scale: frac.len() as u32 })
    } else {
        None
    }
}

/// Facts on the first index of a character.
pub proof fn lemma_index_of(s: Seq<char>, c: char)
    ensures
        index_of(s, c) <= s.len(),
        index_of(s, c) < s.len() ==> s[index_of(s, c) as int] == c,
        forall|i: int| 0 <= i < index_of(s, c) ==> s[i] != c,
    decreases s.len(),
{
    if s.len() > 0 && s[0] != c {
        lemma_index_of(s.drop_first(), c);
        assert forall|i: int| 0 <= i < index_of(s, c) implies s[i] != c by {
            if i > 0 {
                assert(s[i] == s.drop_first()[i - 1]);
            }
        }
    }
}

/// The index of the first `c` in `s`, or its length.
pub fn find_char(s: &Vec<char>, from: usize, c: char) -> (r: usize)
    requires
        from <= s@.len(),
    ensures
        r == from + index_of(s@.subrange(from as int, s@.len() as int), c),
{
    let ghost t = s@.subrange(from as int, s@.len() as int);
    proof {
        lemma_index_of(t, c);
    }
    let mut i: usize = from;
    while i < s.len()
        invariant
            from <= i <= s@.len(),
            t == s@.subrange(from as int, s@.len() as int),
            forall|k: int| from <= k < i ==> s@[k] != c,
            index_of(t, c) >= i - from,
        decreases s@.len() - i,
    {
        if s[i] == c {
            proof {
                lemma_index_of(t, c);
                assert(t[i - from] == c);
            }
            return i;
        }
        proof {
            lemma_index_of(t, c);
            assert(t[i - from] == s@[i as int]);
        }
        i = i + 1;
    }
    i
}

/// Whether `s[from..to]` holds digits only.
fn digits_only(s: &Vec<char>, from: usize, to: usize) -> (r: bool)
    requires
        from <= to <= s@.len(),
    ensures
        r == all_digits(s@.subrange(from as int, to as int)),
{
    let mut i: usize = from;
    while i < to
        invariant
            from <= i <= to <= s@.len(),
            all_digits(s@.subrange(from as int, i as int)),
        decreases to - i,
    {
        if !('0' <= s[i] && s[i] <= '9') {
            assert(s@.subrange(from as int, to as int)[i - from] == s@[i as int]);
            return false;
        }
        assert forall|k: int| 0 <= k < i + 1 - from implies is_digit(#[trigger] s@.subrange(from as int, i + 1)[k]) by {
            assert(s@.subrange(from as int, i + 1)[k] == s@[from + k]);
            if k < i - from {
                assert(s@.subrange(from as int, i as int)[k] == s@[from + k]);
            }
        }
        i = i + 1;
    }
    true
}

/// Reads a decimal number.
pub fn parse_decimal(s: &Vec<char>) -> (r: Option<Decimal>)
    ensures
        r == decimal_of(s@),
        r matches Some(d) ==> d.wf(),
{
    let negative = s.len() > 0 && s[0] == '-';
    let start: usize = if s.len() > 0 && (s[0] == '-' || s[0] == '+') { 1 } else { 0 };
    let ghost body = unsigned_part(s@);
    assert(body =~= s@.subrange(start as int, s@.len() as int));
    let p = find_char(s, start, '.');
    proof {
        lemma_index_of(body, '.');
    }
    let frac_start = if p < s.len() { p + 1 } else { p };
    assert(integer_part(body) =~= s@.subrange(start as int, p as int));
    assert(fraction_part(body) =~= s@.subrange(frac_start as int, s@.len() as int));
    if !digits_only(s, start, p) || !digits_only(s, frac_start, s.len()) {
        return None;
    }
    let mut all: Vec<char> = Vec::new();
    let mut i: usize = start;
    while i < p
        invariant
            start <= i <= p <= s@.len(),
            all@ == s@.subrange(start as int, i as int),
        decreases p - i,
    {
        all.push(s[i]);
        i = i + 1;
        assert(all@ =~= s@.subrange(start as int, i as int));
    }
    let mut j: usize = frac_start;
    while j < s.len()
        invariant
            frac_start <= j <= s@.len(),
            p == start + index_of(body, '.'),
            all@ == s@.subrange(start as int, p as int) + s@.subrange(frac_start as int, j as int),
        decreases s@.len() - j,
    {
        all.push(s[j]);
        j = j + 1;
        assert(all@ =~= s@.subrange(start as int, p as int) + s@.subrange(frac_start as int, j as int));
    }
    let ghost whole = integer_part(body) + fraction_part(body);
    assert(all@ == whole);
    let scale = s.len() - frac_start;
    if all.len() == 0 || scale > 9 {
        return None;
    }
    assert(all_digits(whole)) by {
        assert forall|k: int| 0 <= k < whole.len() implies is_digit(#[trigger] whole[k]) by {
            if k < integer_part(body).len() {
                assert(whole[k] == integer_part(body)[k]);
            } else {
                assert(whole[k] == fraction_part(body)[k - integer_part(body).len()]);
            }
        }
    }
    match parse_u64(&all) {
        None => {
            assert(all@.len() > 0 && all@[0] != '+');
            None
        },
        Some(n) => {
            assert(all@.len() > 0 && all@[0] != '+');
            if n > MAX_DIGITS {
                None
            } else {
                Some(Decimal { negative, digits: n, scale: scale as u32 })
            }
        },
    }
}

} // verus!
