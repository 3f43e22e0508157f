//! Grammars of single field values: the usage-location header, land
//! records, legal purposes, department labels and allowance values.
use vstd::prelude::*;

use crate::numbers::{digits_value, is_digit, index_of, find_char};
use crate::text::{chars_of, slice_chars, str_eq, string_of, string_of_range};

verus! {

/// `s` with every `c` removed.
pub open spec fn without_char(s: Seq<char>, c: char) -> Seq<char>
    decreases s.len(),
{
    if s.len() == 0 {
        s
    } else if s.last() == c {
        without_char(s.drop_last(), c)
    } else {
        without_char(s.drop_last(), c).push(s.last())
    }
}

/// `s` with every `from` replaced by `to`.
pub open spec fn replaced(s: Seq<char>, from: char, to: char) -> Seq<char> {
    s.map_values(|c: char| if c == from { to } else { c })
}

/// Removes every `c` from `s`.
pub fn remove_char(s: &Vec<char>, c: char) -> (r: Vec<char>)
    ensures
        r@ == without_char(s@, c),
{
    let mut r: Vec<char> = Vec::new();
    let mut i: usize = 0;
    while i < s.len()
        invariant
            i <= s@.len(),
            r@ == without_char(s@.subrange(0, i as int), c),
        decreases s@.len() - i,
    {
        assert(s@.subrange(0, i + 1).drop_last() =~= s@.subrange(0, i as int));
        if s[i] != c {
            r.push(s[i]);
        }
        i = i + 1;
    }
    assert(s@.subrange(0, s@.len() as int) =~= s@);
    r
}

/// Replaces every `from` in `s` by `to`.
pub fn replace_char(s: &str, from: char, to: char) -> (r: String)
    ensures
        r@ == replaced(s@, from, to),
{
    let v = chars_of(s);
    let mut out: Vec<char> = Vec::new();
    let mut i: usize = 0;
    while i < v.len()
        invariant
            i <= v@.len(),
            v@ == s@,
            out@ == replaced(v@.subrange(0, i as int), from, to),
        decreases v@.len() - i,
    {
        let c = v[i];
        out.push(if c == from { to } else { c });
        i = i + 1;
        assert(out@ =~= replaced(v@.subrange(0, i as int), from, to));
    }
    assert(v@.subrange(0, v@.len() as int) =~= v@);
    string_of(&out)
}

/// What `char::is_alphanumeric` says of a character: whether Unicode
/// calls it alphabetic or numeric.
pub uninterp spec fn alphanumeric(c: char) -> bool;

/// Relies on `char::is_alphanumeric`: the answer depends on the character
/// alone.
pub assume_specification[ char::is_alphanumeric ](c: char) -> (r: bool)
    ensures
        r == alphanumeric(c),
;

/// Whether `c` may stand in a word of the usage-location header: a letter,
/// a digit or an underscore.
pub open spec fn is_word_char(c: char) -> bool {
    c == '_' || alphanumeric(c)
}

/// How many characters at the end of `s` are word characters.
pub open spec fn trailing_word(s: Seq<char>) -> nat
    decreases s.len(),
{
    if s.len() > 0 && is_word_char(s.last()) {
        1 + trailing_word(s.drop_last())
    } else {
        0
    }
}

/// How many characters at the end of `s` are digits.
pub open spec fn trailing_digits(s: Seq<char>) -> nat
    decreases s.len(),
{
    if s.len() > 0 && is_digit(s.last()) {
        1 + trailing_digits(s.drop_last())
    } else {
        0
    }
}

/// The header of a usage location, `<serial> (<word>, <word>)`: the serial
/// (one line), whether the first word is "aktiv", and whether the second
/// is "real". Words are made of letters, digits and underscores.
pub open spec fn header_of(v: Seq<char>) -> Option<(Seq<char>, bool, bool)> {
    if v.len() == 0 || v.last() != ')' {
        None
    } else {
        let body = v.drop_last();
        let w2 = trailing_word(body) as int;
        let before = body.subrange(0, body.len() - w2);
        if w2 == 0 || before.len() < 2 || before[before.len() - 2] != ',' || before[before.len() - 1] != ' ' {
            None
        } else {
            let rest = before.subrange(0, before.len() - 2);
            let w1 = trailing_word(rest) as int;
            let head = rest.subrange(0, rest.len() - w1);
            if w1 == 0 || head.len() < 2 || head[head.len() - 2] != ' ' || head[head.len() - 1] != '(' {
                None
            } else {
                let serial = head.subrange(0, head.len() - 2);
                if serial.contains('\n') {
                    None
                } else {
                    Some((
                        serial,
                        rest.subrange(rest.len() - w1, rest.len() as int) == "aktiv"@,
                        body.subrange(body.len() - w2, body.len() as int) == "real"@,
                    ))
                }
            }
        }
    }
}

proof fn lemma_trailing_word(s: Seq<char>, j: int)
    requires
        0 <= j <= s.len(),
        forall|k: int| j <= k < s.len() ==> is_word_char(#[trigger] s[k]),
        j > 0 ==> !is_word_char(s[j - 1]),
    ensures
        trailing_word(s) == s.len() - j,
    decreases s.len() - j,
{
    if j < s.len() {
        let d = s.drop_last();
        assert forall|k: int| j <= k < d.len() implies is_word_char(#[trigger] d[k]) by {
            assert(d[k] == s[k]);
        }
        if j > 0 {
            assert(d[j - 1] == s[j - 1]);
        }
        lemma_trailing_word(d, j);
    }
}

proof fn lemma_trailing_digits(s: Seq<char>, j: int)
    requires
        0 <= j <= s.len(),
        forall|k: int| j <= k < s.len() ==> is_digit(#[trigger] s[k]),
        j > 0 ==> !is_digit(s[j - 1]),
    ensures
        trailing_digits(s) == s.len() - j,
    decreases s.len() - j,
{
    if j < s.len() {
        let d = s.drop_last();
        assert forall|k: int| j <= k < d.len() implies is_digit(#[trigger] d[k]) by {
            assert(d[k] == s[k]);
        }
        if j > 0 {
            assert(d[j - 1] == s[j - 1]);
        }
        lemma_trailing_digits(d, j);
    }
}

fn is_word(c: char) -> (r: bool)
    ensures
        r == is_word_char(c),
{
    c == '_' || c.is_alphanumeric()
}

/// The start of the run of word characters that ends at `to`.
fn word_start(v: &Vec<char>, to: usize) -> (r: usize)
    requires
        to <= v@.len(),
    ensures
        r <= to,
        r == to - trailing_word(v@.subrange(0, to as int)),
{
    let mut j = to;
    while j > 0 && is_word(v[j - 1])
        invariant
            j <= to <= v@.len(),
            forall|k: int| j <= k < to ==> is_word_char(#[trigger] v@[k]),
        decreases j,
    {
        j = j - 1;
    }
    proof {
        let s = v@.subrange(0, to as int);
        assert forall|k: int| j <= k < s.len() implies is_word_char(#[trigger] s[k]) by {
            assert(s[k] == v@[k]);
        }
        if j > 0 {
            assert(s[j - 1] == v@[j - 1]);
        }
        lemma_trailing_word(s, j as int);
    }
    j
}

/// Reads the header of a usage location.
pub fn parse_header(value: &str) -> (r: Option<(String, bool, bool)>)
    ensures
        match r {
            Some((s, a, re)) => header_of(value@) == Some((s@, a, re)),
            None => header_of(value@) is None,
        },
{
    let v = chars_of(value);
    let n = v.len();
    if n == 0 || v[n - 1] != ')' {
        return None;
    }
    let ghost body = v@.drop_last();
    assert(body =~= v@.subrange(0, n - 1));
    let w2_start = word_start(&v, n - 1);
    let ghost before = body.subrange(0, w2_start as int);
    if w2_start == n - 1 || w2_start < 2 || v[w2_start - 2] != ',' || v[w2_start - 1] != ' ' {
        proof {
            if w2_start >= 2 {
                assert(before[before.len() - 2] == v@[w2_start - 2]);
                assert(before[before.len() - 1] == v@[w2_start - 1]);
            }
        }
        return None;
    }
    assert(before[before.len() - 2] == v@[w2_start - 2]);
    assert(before[before.len() - 1] == v@[w2_start - 1]);
    let rest_end = w2_start - 2;
    let ghost rest = before.subrange(0, before.len() - 2);
    assert(rest =~= v@.subrange(0, rest_end as int));
    let w1_start = word_start(&v, rest_end);
    let ghost head = rest.subrange(0, w1_start as int);
    if w1_start == rest_end || w1_start < 2 || v[w1_start - 2] != ' ' || v[w1_start - 1] != '(' {
        proof {
            if w1_start >= 2 {
                assert(head[head.len() - 2] == v@[w1_start - 2]);
                assert(head[head.len() - 1] == v@[w1_start - 1]);
            }
        }
        return None;
    }
    assert(head[head.len() - 2] == v@[w1_start - 2]);
    assert(head[head.len() - 1] == v@[w1_start - 1]);
    let serial_end = w1_start - 2;
    let ghost serial = head.subrange(0, head.len() - 2);
    assert(serial =~= v@.subrange(0, serial_end as int));
    let nl = find_char(&v, 0, '\n');
    proof {
        crate::numbers::lemma_index_of(v@, '\n');
        assert(v@.subrange(0, v@.len() as int) =~= v@);
    }
    if nl < serial_end {
        assert(serial[nl as int] == '\n');
        return None;
    }
    assert(!serial.contains('\n')) by {
        if serial.contains('\n') {
            let k = choose|k: int| 0 <= k < serial.len() && serial[k] == '\n';
            assert(serial[k] == v@[k]);
        }
    }
    let serial_s = string_of_range(&v, 0, serial_end);
    let w1 = string_of_range(&v, w1_start, rest_end);
    let w2 = string_of_range(&v, w2_start, n - 1);
    assert(w1@ =~= rest.subrange(rest.len() - (rest_end - w1_start), rest.len() as int));
    assert(w2@ =~= body.subrange(body.len() - (n - 1 - w2_start), body.len() as int));
    let active = str_eq(w1.as_str(), "aktiv");
    let is_real = str_eq(w2.as_str(), "real");
    Some((serial_s, active, is_real))
}

/// The land record that a value without spaces writes: a district of no
/// digits followed by a field number that fits in 32 bits; `None` where the
/// value has another shape.
pub open spec fn land_record_of(v: Seq<char>) -> Option<(Seq<char>, u32)> {
    let d = trailing_digits(v) as int;
    let district = v.subrange(0, v.len() - d);
    let number = v.subrange(v.len() - d, v.len() as int);
    if d > 0 && district.len() > 0 && (forall|k: int| 0 <= k < district.len() ==> !is_digit(#[trigger] district[k]))
        && digits_value(number) <= u32::MAX {
        Some((district, digits_value(number) as u32))
    } else {
        None
    }
}

/// Reads a land record from a value without spaces.
pub fn parse_land_record(v: &Vec<char>) -> (r: Option<(String, u32)>)
    ensures
        match r {
            Some((d, f)) => land_record_of(v@) == Some((d@, f)),
            None => land_record_of(v@) is None,
        },
{
    let n = v.len();
    let mut j = n;
    while j > 0 && '0' <= v[j - 1] && v[j - 1] <= '9'
        invariant
            j <= n == v@.len(),
            forall|k: int| j <= k < n ==> is_digit(#[trigger] v@[k]),
        decreases j,
    {
        j = j - 1;
    }
    proof {
        lemma_trailing_digits(v@, j as int);
    }
    if j == n || j == 0 {
        assert(v@.subrange(0, v@.len() - trailing_digits(v@)).len() == j);
        assert(land_record_of(v@) is None);
        return None;
    }
    let mut k: usize = 0;
    while k < j
        invariant
            k <= j <= n == v@.len(),
            trailing_digits(v@) == n - j,
            forall|m: int| 0 <= m < k ==> !is_digit(#[trigger] v@[m]),
        decreases j - k,
    {
        if '0' <= v[k] && v[k] <= '9' {
            assert(v@.subrange(0, j as int)[k as int] == v@[k as int]);
            return None;
        }
        k = k + 1;
    }
    let ghost district = v@.subrange(0, j as int);
    assert forall|m: int| 0 <= m < district.len() implies !is_digit(#[trigger] district[m]) by {
        assert(district[m] == v@[m]);
    }
    let digits = slice_chars(v, j, n);
    match crate::numbers::parse_u64(&digits) {
        None => {
            assert(digits@.len() > 0 && digits@[0] != '+');
            assert(crate::numbers::all_digits(digits@)) by {
                assert forall|m: int| 0 <= m < digits@.len() implies is_digit(#[trigger] digits@[m]) by {
                    assert(digits@[m] == v@[j + m]);
                }
            }
            None
        },
        Some(num) => {
            assert(digits@.len() > 0 && digits@[0] != '+');
            if num > 4294967295 {
                None
            } else {
                Some((string_of_range(v, 0, j), num as u32))
            }
        },
    }
}

/// The legal purpose: a code and a name, split at the first space; `None`
/// where there is no space.
pub open spec fn purpose_of(v: Seq<char>) -> Option<(Seq<char>, Seq<char>)> {
    let sp = index_of(v, ' ') as int;
    if sp < v.len() {
        Some((v.subrange(0, sp), v.subrange(sp + 1, v.len() as int)))
    } else {
        None
    }
}

/// Splits a legal purpose into code and name.
pub fn parse_purpose(value: &str) -> (r: Option<(String, String)>)
    ensures
        match r {
            Some((a, b)) => purpose_of(value@) == Some((a@, b@)),
            None => purpose_of(value@) is None,
        },
{
    let v = chars_of(value);
    let sp = find_char(&v, 0, ' ');
    assert(v@.subrange(0, v@.len() as int) =~= v@);
    proof {
        crate::numbers::lemma_index_of(v@, ' ');
    }
    if sp >= v.len() {
        return None;
    }
    Some((string_of_range(&v, 0, sp), string_of_range(&v, sp + 1, v.len())))
}

/// The abbreviation and description of a department label,
/// `<abbreviation> [- ]<description>`; the description is `None` where the
/// label has no space.
pub open spec fn department_parts(label: Seq<char>) -> (Seq<char>, Option<Seq<char>>) {
    let sp = index_of(label, ' ') as int;
    let abbreviation = label.subrange(0, sp);
    if sp < label.len() {
        let rest = label.subrange(sp + 1, label.len() as int);
        if rest.len() >= 2 && rest[0] == '-' && rest[1] == ' ' {
            (abbreviation, Some(rest.subrange(2, rest.len() as int)))
        } else {
            (abbreviation, Some(rest))
        }
    } else {
        (abbreviation, None)
    }
}

/// Splits a department label into abbreviation and description.
pub fn split_department_label(label: &str) -> (r: (String, Option<String>))
    ensures
        r.0@ == department_parts(label@).0,
        match r.1 {
            Some(d) => department_parts(label@).1 == Some(d@),
            None => department_parts(label@).1 is None,
        },
{
    let v = chars_of(label);
    let n = v.len();
    let sp = find_char(&v, 0, ' ');
    assert(v@.subrange(0, v@.len() as int) =~= v@);
    proof {
        crate::numbers::lemma_index_of(v@, ' ');
    }
    let abbreviation = string_of_range(&v, 0, sp);
    if sp >= n {
        return (abbreviation, None);
    }
    let start = if n - (sp + 1) >= 2 && v[sp + 1] == '-' && v[sp + 2] == ' ' { sp + 3 } else { sp + 1 };
    let description = string_of_range(&v, start, n);
    (abbreviation, Some(description))
}

/// The index of the last `c` in `s`, or -1.
pub open spec fn last_index_of(s: Seq<char>, c: char) -> int
    decreases s.len(),
{
    if s.len() == 0 {
        -1
    } else if s.last() == c {
        s.len() - 1
    } else {
        last_index_of(s.drop_last(), c)
    }
}

proof fn lemma_last_index_of(s: Seq<char>, c: char, j: int)
    requires
        -1 <= j < s.len(),
        forall|k: int| j < k < s.len() ==> s[k] != c,
        j >= 0 ==> s[j] == c,
    ensures
        last_index_of(s, c) == j,
    decreases s.len(),
{
    if s.len() > 0 && s.last() != c {
        let d = s.drop_last();
        assert forall|k: int| j < k < d.len() implies d[k] != c by {
            assert(d[k] == s[k]);
        }
        if j >= 0 {
            assert(d[j] == s[j]);
        }
        lemma_last_index_of(d, c, j);
    }
}

/// The index of the last `c` in `v[0..to]`, or -1.
pub fn find_last(v: &Vec<char>, to: usize, c: char) -> (r: Option<usize>)
    requires
        to <= v@.len(),
    ensures
        match r {
            Some(k) => last_index_of(v@.subrange(0, to as int), c) == k && k < to,
            None => last_index_of(v@.subrange(0, to as int), c) == -1,
        },
{
    let ghost s = v@.subrange(0, to as int);
    let mut j = to;
    while j > 0
        invariant
            j <= to <= v@.len(),
            s == v@.subrange(0, to as int),
            forall|k: int| j <= k < to ==> s[k] != c,
        decreases j,
    {
        if v[j - 1] == c {
            proof {
                assert(s[j - 1] == c);
                lemma_last_index_of(s, c, j - 1);
            }
            return Some(j - 1);
        }
        assert(s[j - 1] == v@[j - 1]);
        j = j - 1;
    }
    proof {
        lemma_last_index_of(s, c, -1);
    }
    None
}

/// The parts of an allowance value, `<kind> <value> <unit>`, split at its
/// last two spaces; `None` where it has fewer than two.
pub open spec fn allowance_parts(v: Seq<char>) -> Option<(Seq<char>, Seq<char>, Seq<char>)> {
    let ls = last_index_of(v, ' ');
    let before = v.subrange(0, if ls < 0 { 0 } else { ls });
    let ls2 = last_index_of(before, ' ');
    if ls < 0 || ls2 < 0 {
        None
    } else {
        Some((before.subrange(0, ls2), before.subrange(ls2 + 1, before.len() as int), v.subrange(ls + 1, v.len() as int)))
    }
}

proof fn lemma_last_index_bound(s: Seq<char>, c: char)
    ensures
        -1 <= last_index_of(s, c) < s.len(),
    decreases s.len(),
{
    if s.len() > 0 && s.last() != c {
        lemma_last_index_bound(s.drop_last(), c);
    }
}

/// Splits an allowance value into kind, value and unit.
pub fn split_allowance(value: &str) -> (r: Option<(String, String, String)>)
    ensures
        match r {
            Some((k, v, u)) => allowance_parts(value@) == Some((k@, v@, u@)),
            None => allowance_parts(value@) is None,
        },
{
    let v = chars_of(value);
    let n = v.len();
    assert(v@.subrange(0, n as int) =~= v@);
    let ls = match find_last(&v, n, ' ') {
        Some(k) => k,
        None => {
            return None;
        },
    };
    let ghost before = v@.subrange(0, ls as int);
    let ls2 = match find_last(&v, ls, ' ') {
        Some(k) => k,
        None => {
            return None;
        },
    };
    let kind = string_of_range(&v, 0, ls2);
    let amount = string_of_range(&v, ls2 + 1, ls);
    let unit = string_of_range(&v, ls + 1, n);
    assert(kind@ =~= before.subrange(0, ls2 as int));
    assert(amount@ =~= before.subrange(ls2 + 1, before.len() as int));
    Some((kind, amount, unit))
}

} // verus!
