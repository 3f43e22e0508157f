//! Small helpers on optional values and on text.
use vstd::prelude::*;

use crate::text::{chars_of, string_of_range};

verus! {

/// The characters that Unicode calls white space, as `char::is_whitespace`
/// documents them.
pub open spec fn is_space(c: char) -> bool {
    ('\u{9}' <= c && c <= '\u{d}') || c == ' ' || c == '\u{85}' || c == '\u{a0}' || c == '\u{1680}'
        || ('\u{2000}' <= c && c <= '\u{200a}') || c == '\u{2028}' || c == '\u{2029}' || c == '\u{202f}'
        || c == '\u{205f}' || c == '\u{3000}'
}

/// Whether `c` is white space.
pub fn is_space_char(c: char) -> (r: bool)
    ensures
        r == is_space(c),
{
    ('\u{9}' <= c && c <= '\u{d}') || c == ' ' || c == '\u{85}' || c == '\u{a0}' || c == '\u{1680}'
        || ('\u{2000}' <= c && c <= '\u{200a}') || c == '\u{2028}' || c == '\u{2029}' || c == '\u{202f}'
        || c == '\u{205f}' || c == '\u{3000}'
}

/// How many characters at the start of `s` are white space.
pub open spec fn leading_space(s: Seq<char>) -> nat
    decreases s.len(),
{
    if s.len() > 0 && is_space(s[0]) {
        1 + leading_space(s.drop_first())
    } else {
        0
    }
}

/// How many characters at the end of `s` are white space.
pub open spec fn trailing_space(s: Seq<char>) -> nat
    decreases s.len(),
{
    if s.len() > 0 && is_space(s.last()) {
        1 + trailing_space(s.drop_last())
    } else {
        0
    }
}

/// `s` without white space at its start and end.
pub open spec fn trimmed(s: Seq<char>) -> Seq<char> {
    let t = s.subrange(leading_space(s) as int, s.len() as int);
    t.subrange(0, t.len() - trailing_space(t))
}

proof fn lemma_leading(s: Seq<char>, i: int)
    requires
        0 <= i <= s.len(),
        forall|k: int| 0 <= k < i ==> is_space(#[trigger] s[k]),
        i < s.len() ==> !is_space(s[i]),
    ensures
        leading_space(s) == i,
    decreases i,
{
    if i > 0 {
        let d = s.drop_first();
        assert forall|k: int| 0 <= k < i - 1 implies is_space(#[trigger] d[k]) by {
            assert(d[k] == s[k + 1]);
        }
        if i < s.len() {
            assert(d[i - 1] == s[i]);
        }
        lemma_leading(d, i - 1);
    }
}

proof fn lemma_trailing(s: Seq<char>, j: int)
    requires
        0 <= j <= s.len(),
        forall|k: int| j <= k < s.len() ==> is_space(#[trigger] s[k]),
        j > 0 ==> !is_space(s[j - 1]),
    ensures
        trailing_space(s) == s.len() - j,
    decreases s.len() - j,
{
    if j < s.len() {
        let d = s.drop_last();
        assert forall|k: int| j <= k < d.len() implies is_space(#[trigger] d[k]) by {
            assert(d[k] == s[k]);
        }
        if j > 0 {
            assert(d[j - 1] == s[j - 1]);
        }
        lemma_trailing(d, j);
    }
}

/// `s` without white space at its start and end.
pub fn trim(s: &str) -> (r: String)
    ensures
        r@ == trimmed(s@),
{
    let v = chars_of(s);
    let n = v.len();
    let mut i: usize = 0;
    while i < n && is_space_char(v[i])
        invariant
            n == v@.len(),
            i <= n,
            forall|k: int| 0 <= k < i ==> is_space(#[trigger] v@[k]),
        decreases n - i,
    {
        i = i + 1;
    }
    proof {
        lemma_leading(v@, i as int);
    }
    let ghost t = v@.subrange(i as int, n as int);
    let mut j: usize = n;
    while j > i && is_space_char(v[j - 1])
        invariant
            i <= j <= n,
            n == v@.len(),
            forall|k: int| j <= k < n ==> is_space(#[trigger] v@[k]),
        decreases j,
    {
        j = j - 1;
    }
    proof {
        assert forall|k: int| j - i <= k < t.len() implies is_space(#[trigger] t[k]) by {
            assert(t[k] == v@[k + i]);
        }
        if j > i {
            assert(t[j - i - 1] == v@[j - 1]);
        }
        lemma_trailing(t, j - i);
        assert(t.subrange(0, j - i) =~= v@.subrange(i as int, j as int));
    }
    string_of_range(&v, i, j)
}

/// An optional text made plain: white space around it is removed, and a
/// text that is then empty or a lone `-` counts as absent.
pub open spec fn sanitized(value: Option<Seq<char>>) -> Option<Seq<char>> {
    match value {
        None => None,
        Some(s) => {
            let t = trimmed(s);
            if t.len() == 0 || t == seq!['-'] {
                None
            } else {
                Some(t)
            }
        },
    }
}

/// The view of an optional string.
pub open spec fn opt_view(o: Option<String>) -> Option<Seq<char>> {
    match o {
        Some(s) => Some(s@),
        None => None,
    }
}

/// Makes an optional text plain: white space around it is removed, and a
/// text that is then empty or a lone `-` counts as absent.
pub fn sanitize(value: Option<String>) -> (r: Option<String>)
    ensures
        opt_view(r) == sanitized(opt_view(value)),
{
    match value {
        None => None,
        Some(s) => {
            let t = trim(s.as_str());
            let n = t.unicode_len();
            if n == 0 {
                None
            } else if n == 1 && t.as_str().get_char(0) == '-' {
                assert(t@ =~= seq!['-']);
                None
            } else {
                assert(n == 1 ==> t@ != seq!['-'] || t@[0] == '-');
                Some(t)
            }
        },
    }
}

/// Sets `target` to `other` where it is not set yet.
pub fn update_if_none<T>(target: &mut Option<T>, other: Option<T>)
    ensures
        *final(target) == if (*old(target)) is None { other } else { *old(target) },
{
    if target.is_none() {
        *target = other;
    }
}

/// Zero, which the spreadsheet writes for a missing coordinate, as absent.
pub fn zero_is_none(value: u64) -> (r: Option<u64>)
    ensures
        r == if value == 0 { None } else { Some(value) },
{
    if value == 0 {
        None
    } else {
        Some(value)
    }
}

/// Making an optional text plain, as a method.
pub trait StringOption: Sized {
    /// White space around the text is removed, and a text that is then
    /// empty or a lone `-` counts as absent.
    fn sanitize(self) -> Option<String>;
}

impl StringOption for Option<String> {
    fn sanitize(self) -> (r: Option<String>)
        ensures
            opt_view(r) == sanitized(opt_view(self)),
    {
        sanitize(self)
    }
}

/// Setting an optional value only where it is not set yet, as a method.
pub trait OptionUpdate<T>: Sized {
    /// Sets the value to `other` where it is not set yet.
    fn update_if_none(&mut self, other: Option<T>);
}

impl<T> OptionUpdate<T> for Option<T> {
    fn update_if_none(&mut self, other: Option<T>)
        ensures
            *final(self) == if (*old(self)) is None { other } else { *old(self) },
    {
        update_if_none(self, other)
    }
}

} // verus!
