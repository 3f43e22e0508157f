//! Text of values for PostgreSQL's `COPY ... FROM` format, with the quoting
//! that nested composites and arrays need.
use vstd::prelude::*;

use crate::text::push_all;

verus! {

/// Where a value stands while it is written: how deep its quotes are
/// nested, and whether it is inside a composite or an array.
#[derive(Debug, Clone, Copy, PartialEq, Eq, Structural)]
pub struct PostgresCopyContext {
    pub depth: usize,
    pub in_composite: bool,
    pub in_array: bool,
}

impl Default for PostgresCopyContext {
    fn default() -> (r: Self)
        ensures
            r == (PostgresCopyContext { depth: 0, in_composite: false, in_array: false }),
    {
        PostgresCopyContext { depth: 0, in_composite: false, in_array: false }
    }
}

impl PostgresCopyContext {
    /// Raises the depth by one.
    pub fn deepen(self) -> (r: Self)
        requires
            self.depth < usize::MAX,
        ensures
            r == (PostgresCopyContext { depth: (self.depth + 1) as usize, ..self }),
    {
        PostgresCopyContext { depth: self.depth + 1, ..self }
    }

    /// Marks the context as inside a composite.
    pub fn composite(self) -> (r: Self)
        ensures
            r == (PostgresCopyContext { in_composite: true, ..self }),
    {
        PostgresCopyContext { in_composite: true, ..self }
    }

    /// Marks the context as inside an array.
    pub fn array(self) -> (r: Self)
        ensures
            r == (PostgresCopyContext { in_array: true, ..self }),
    {
        PostgresCopyContext { in_array: true, ..self }
    }
}

/// `s` repeated `n` times.
pub open spec fn repeat(s: Seq<char>, n: nat) -> Seq<char>
    decreases n,
{
    if n == 0 {
        Seq::empty()
    } else {
        repeat(s, (n - 1) as nat) + s
    }
}

/// The escaped quotation mark `\\"`.
pub open spec fn escaped_quote() -> Seq<char> {
    seq!['\\', '\\', '"']
}

/// The quotation marks around a value at `depth`: none at depth 0, a plain
/// `"` at depth 1, and `depth - 1` escaped ones `\\"` deeper down.
pub open spec fn quote_mark(depth: nat) -> Seq<char> {
    if depth == 0 {
        Seq::empty()
    } else if depth == 1 {
        seq!['"']
    } else {
        repeat(escaped_quote(), (depth - 1) as nat)
    }
}

/// `content` between the quotation marks of `depth`.
pub open spec fn quoted_text(content: Seq<char>, depth: nat) -> Seq<char> {
    quote_mark(depth) + content + quote_mark(depth)
}

fn push_repeat(out: &mut String, s: &str, n: usize)
    ensures
        final(out)@ == old(out)@ + repeat(s@, n as nat),
{
    let mut i: usize = 0;
    while i < n
        invariant
            i <= n,
            out@ == old(out)@ + repeat(s@, i as nat),
        decreases n - i,
    {
        push_all(out, s);
        i = i + 1;
        assert(out@ =~= old(out)@ + repeat(s@, i as nat));
    }
}

fn push_quote_mark(out: &mut String, depth: usize)
    ensures
        final(out)@ == old(out)@ + quote_mark(depth as nat),
{
    proof {
        reveal_strlit("\\\\\"");
    }
    assert("\\\\\""@ == escaped_quote());
    if depth == 1 {
        out.push('"');
        assert(out@ =~= old(out)@ + quote_mark(depth as nat));
    } else if depth >= 2 {
        push_repeat(out, "\\\\\"", depth - 1);
    } else {
        assert(out@ =~= old(out)@ + quote_mark(depth as nat));
    }
}

/// Writes `content` between the quotation marks that `ctx` asks for.
pub fn quoted(out: &mut String, content: &str, ctx: PostgresCopyContext)
    ensures
        final(out)@ == old(out)@ + quoted_text(content@, ctx.depth as nat),
{
    push_quote_mark(out, ctx.depth);
    push_all(out, content);
    push_quote_mark(out, ctx.depth);
    assert(out@ =~= old(out)@ + quoted_text(content@, ctx.depth as nat));
}

/// A character of a text at quote depth `d`: a quotation mark is doubled,
/// with `d - 2` escaped backslashes before each half from depth 2 on; line
/// feeds and carriage returns are written as `\n` and `\r`.
pub open spec fn escape_char(c: char, d: nat) -> Seq<char> {
    if c == '"' {
        if d <= 1 {
            seq!['"']
        } else {
            repeat(seq!['\\', '\\'], (d - 2) as nat) + seq!['"'] + repeat(seq!['\\', '\\'], (d - 2) as nat) + seq!['"']
        }
    } else if c == '\n' {
        seq!['\\', 'n']
    } else if c == '\r' {
        seq!['\\', 'r']
    } else {
        seq![c]
    }
}

/// A text with each character escaped for quote depth `d`.
pub open spec fn escaped(s: Seq<char>, d: nat) -> Seq<char>
    decreases s.len(),
{
    if s.len() == 0 {
        Seq::empty()
    } else {
        escaped(s.drop_last(), d) + escape_char(s.last(), d)
    }
}

/// A text as `COPY` wants it: escaped one level deeper, between the
/// quotation marks of its depth.
pub open spec fn text_copy(s: Seq<char>, depth: nat) -> Seq<char> {
    quoted_text(escaped(s, depth + 1), depth)
}

/// Writes a text.
pub fn copy_text(out: &mut String, s: &str, ctx: PostgresCopyContext)
    requires
        ctx.depth < usize::MAX,
    ensures
        final(out)@ == old(out)@ + text_copy(s@, ctx.depth as nat),
{
    let d = ctx.depth + 1;
    let mut inner = String::new();
    let n = s.unicode_len();
    let mut i: usize = 0;
    proof {
        reveal_strlit("\\\\");
    }
    assert("\\\\"@ =~= seq!['\\', '\\']);
    while i < n
        invariant
            n == s@.len(),
            i <= n,
            d == ctx.depth + 1,
            "\\\\"@ == seq!['\\', '\\'],
            inner@ == escaped(s@.subrange(0, i as int), d as nat),
        decreases n - i,
    {
        let c = s.get_char(i);
        let ghost before = inner@;
        if c == '"' {
            if d <= 1 {
                inner.push('"');
            } else {
                push_repeat(&mut inner, "\\\\", d - 2);
                inner.push('"');
                push_repeat(&mut inner, "\\\\", d - 2);
                inner.push('"');
            }
        } else if c == '\n' {
            inner.push('\\');
            inner.push('n');
        } else if c == '\r' {
            inner.push('\\');
            inner.push('r');
        } else {
            inner.push(c);
        }
        assert(inner@ =~= before + escape_char(c, d as nat));
        assert(s@.subrange(0, i + 1).drop_last() =~= s@.subrange(0, i as int));
        i = i + 1;
    }
    assert(s@.subrange(0, n as int) =~= s@);
    quoted(out, inner.as_str(), ctx);
}

/// The digits of a number in base ten.
pub open spec fn decimal_text(n: nat) -> Seq<char>
    decreases n,
{
    if n < 10 {
        seq![(n + '0' as nat) as char]
    } else {
        decimal_text(n / 10) + seq![((n % 10) + '0' as nat) as char]
    }
}

fn digit_char(d: u64) -> (r: char)
    requires
        d < 10,
    ensures
        r == (d + '0' as nat) as char,
{
    match d {
        0 => '0',
        1 => '1',
        2 => '2',
        3 => '3',
        4 => '4',
        5 => '5',
        6 => '6',
        7 => '7',
        8 => '8',
        _ => '9',
    }
}

/// Writes a number in base ten.
pub fn copy_number(out: &mut String, n: u64)
    ensures
        final(out)@ == old(out)@ + decimal_text(n as nat),
    decreases n,
{
    if n >= 10 {
        copy_number(out, n / 10);
    }
    let c = digit_char(n % 10);
    out.push(c);
    assert(out@ =~= old(out)@ + decimal_text(n as nat));
}

/// A value that can stand in a composite or an array.
#[derive(Debug)]
pub enum CopyValue {
    Null,
    Bool(bool),
    Number(u64),
    Text(String),
}

/// The `NULL` marker `\N`; inside a composite nothing at all.
pub struct Null;

/// The text of a value in a context.
pub open spec fn value_copy(v: CopyValue, ctx: PostgresCopyContext) -> Seq<char> {
    match v {
        CopyValue::Null => if ctx.in_composite {
            Seq::empty()
        } else {
            seq!['\\', 'N']
        },
        CopyValue::Bool(b) => if b {
            seq!['t', 'r', 'u', 'e']
        } else {
            seq!['f', 'a', 'l', 's', 'e']
        },
        CopyValue::Number(n) => decimal_text(n as nat),
        CopyValue::Text(s) => text_copy(s@, ctx.depth as nat),
    }
}

/// Writes a value.
pub fn copy_value(out: &mut String, v: &CopyValue, ctx: PostgresCopyContext)
    requires
        ctx.depth < usize::MAX,
    ensures
        final(out)@ == old(out)@ + value_copy(*v, ctx),
{
    match v {
        CopyValue::Null => {
            if !ctx.in_composite {
                out.push('\\');
                out.push('N');
            }
            assert(out@ =~= old(out)@ + value_copy(*v, ctx));
        },
        CopyValue::Bool(b) => {
            proof {
                reveal_strlit("true");
                reveal_strlit("false");
            }
            if *b {
                push_all(out, "true");
            } else {
                push_all(out, "false");
            }
        },
        CopyValue::Number(n) => copy_number(out, *n),
        CopyValue::Text(s) => copy_text(out, s.as_str(), ctx),
    }
}

/// The fields written one after another, each after a comma but the first.
pub open spec fn fields_copy(fields: Seq<CopyValue>, ctx: PostgresCopyContext) -> Seq<char>
    decreases fields.len(),
{
    if fields.len() == 0 {
        Seq::empty()
    } else if fields.len() == 1 {
        value_copy(fields[0], ctx)
    } else {
        fields_copy(fields.drop_last(), ctx) + seq![','] + value_copy(fields.last(), ctx)
    }
}

fn copy_fields(out: &mut String, fields: &Vec<CopyValue>, ctx: PostgresCopyContext)
    requires
        ctx.depth < usize::MAX,
    ensures
        final(out)@ == old(out)@ + fields_copy(fields@, ctx),
{
    let mut i: usize = 0;
    while i < fields.len()
        invariant
            i <= fields@.len(),
            ctx.depth < usize::MAX,
            out@ == old(out)@ + fields_copy(fields@.subrange(0, i as int), ctx),
        decreases fields@.len() - i,
    {
        if i > 0 {
            out.push(',');
        }
        copy_value(out, &fields[i], ctx);
        assert(fields@.subrange(0, i + 1).drop_last() =~= fields@.subrange(0, i as int));
        assert(out@ =~= old(out)@ + fields_copy(fields@.subrange(0, i + 1), ctx));
        i = i + 1;
    }
    assert(fields@.subrange(0, fields@.len() as int) =~= fields@);
}

/// The context a composite is quoted in: one level deeper where it stands
/// unquoted in an array.
pub open spec fn composite_context(ctx: PostgresCopyContext) -> PostgresCopyContext {
    if ctx.in_array && ctx.depth == 0 {
        PostgresCopyContext { depth: 1, ..ctx }
    } else {
        ctx
    }
}

/// A composite: its fields in parentheses, written one level deeper inside
/// a composite, and quoted at the composite's depth.
pub open spec fn composite_copy(fields: Seq<CopyValue>, ctx: PostgresCopyContext) -> Seq<char> {
    let c = composite_context(ctx);
    let inner = PostgresCopyContext { depth: (c.depth + 1) as usize, in_composite: true, ..c };
    quoted_text(seq!['('] + fields_copy(fields, inner) + seq![')'], c.depth as nat)
}

/// Writes a composite of fields.
pub fn write_composite(out: &mut String, fields: &Vec<CopyValue>, ctx: PostgresCopyContext)
    requires
        ctx.depth < usize::MAX - 2,
    ensures
        final(out)@ == old(out)@ + composite_copy(fields@, ctx),
{
    let c = if ctx.in_array && ctx.depth == 0 { ctx.deepen() } else { ctx };
    let inner_ctx = c.deepen().composite();
    let mut inner = String::new();
    inner.push('(');
    copy_fields(&mut inner, fields, inner_ctx);
    inner.push(')');
    assert(inner@ =~= seq!['('] + fields_copy(fields@, inner_ctx) + seq![')']);
    quoted(out, inner.as_str(), c);
}

/// An array: its items in braces, each in an array context; an empty one
/// is `NULL`.
pub open spec fn array_copy(items: Seq<CopyValue>, ctx: PostgresCopyContext) -> Seq<char> {
    if items.len() == 0 {
        value_copy(CopyValue::Null, ctx)
    } else {
        seq!['{'] + fields_copy(items, PostgresCopyContext { in_array: true, ..ctx }) + seq!['}']
    }
}

/// Writes an array of values.
pub fn write_array(out: &mut String, items: &Vec<CopyValue>, ctx: PostgresCopyContext)
    requires
        ctx.depth < usize::MAX,
    ensures
        final(out)@ == old(out)@ + array_copy(items@, ctx),
{
    if items.len() == 0 {
        copy_value(out, &CopyValue::Null, ctx);
        return;
    }
    out.push('{');
    copy_fields(out, items, ctx.array());
    out.push('}');
    assert(out@ =~= old(out)@ + array_copy(items@, ctx));
}

/// A value that can be written for `COPY`.
pub trait PostgresCopy {
    /// The text of the value in a context.
    spec fn copy_spec(&self, ctx: PostgresCopyContext) -> Seq<char>;

    /// Writes the value in a context.
    fn copy_to(&self, out: &mut String, ctx: PostgresCopyContext)
        requires
            ctx.depth < usize::MAX,
        ensures
            final(out)@ == old(out)@ + self.copy_spec(ctx),
    ;
}

impl PostgresCopy for CopyValue {
    open spec fn copy_spec(&self, ctx: PostgresCopyContext) -> Seq<char> {
        value_copy(*self, ctx)
    }

    fn copy_to(&self, out: &mut String, ctx: PostgresCopyContext) {
        copy_value(out, self, ctx)
    }
}

impl PostgresCopy for String {
    open spec fn copy_spec(&self, ctx: PostgresCopyContext) -> Seq<char> {
        text_copy(self@, ctx.depth as nat)
    }

    fn copy_to(&self, out: &mut String, ctx: PostgresCopyContext) {
        copy_text(out, self.as_str(), ctx)
    }
}

impl PostgresCopy for u64 {
    open spec fn copy_spec(&self, ctx: PostgresCopyContext) -> Seq<char> {
        decimal_text(*self as nat)
    }

    fn copy_to(&self, out: &mut String, ctx: PostgresCopyContext) {
        copy_number(out, *self)
    }
}

impl PostgresCopy for Null {
    open spec fn copy_spec(&self, ctx: PostgresCopyContext) -> Seq<char> {
        value_copy(CopyValue::Null, ctx)
    }

    fn copy_to(&self, out: &mut String, ctx: PostgresCopyContext) {
        copy_value(out, &CopyValue::Null, ctx)
    }
}

/// Values that are written together as an array.
pub trait IterPostgresCopy {
    /// The text of the array in a context.
    spec fn array_spec(&self, ctx: PostgresCopyContext) -> Seq<char>;

    /// Writes the values as an array.
    fn copy_to(&self, out: &mut String, ctx: PostgresCopyContext)
        requires
            ctx.depth < usize::MAX,
        ensures
            final(out)@ == old(out)@ + self.array_spec(ctx),
    ;
}

impl IterPostgresCopy for Vec<CopyValue> {
    open spec fn array_spec(&self, ctx: PostgresCopyContext) -> Seq<char> {
        array_copy(self@, ctx)
    }

    fn copy_to(&self, out: &mut String, ctx: PostgresCopyContext) {
        write_array(out, self, ctx)
    }
}

/// A point of UTM coordinates.
#[derive(Debug, Clone, Copy, PartialEq, Eq, Structural)]
pub struct UtmPoint {
    pub easting: u64,
    pub northing: u64,
}

impl PostgresCopy for UtmPoint {
    /// `POINT(<easting> <northing>)`.
    open spec fn copy_spec(&self, ctx: PostgresCopyContext) -> Seq<char> {
        seq!['P', 'O', 'I', 'N', 'T', '('] + decimal_text(self.easting as nat) + seq![' ']
            + decimal_text(self.northing as nat) + seq![')']
    }

    fn copy_to(&self, out: &mut String, ctx: PostgresCopyContext) {
        proof {
            reveal_strlit("POINT(");
        }
        push_all(out, "POINT(");
        copy_number(out, self.easting);
        out.push(' ');
        copy_number(out, self.northing);
        out.push(')');
        assert(out@ =~= old(out)@ + self.copy_spec(ctx));
    }
}

/// A date in ISO form, or "unbefristet" for one without end.
#[derive(Debug)]
pub struct IsoDate(pub String);

impl PostgresCopy for IsoDate {
    /// "unbefristet" becomes `infinity`; any other date is written as it is.
    open spec fn copy_spec(&self, ctx: PostgresCopyContext) -> Seq<char> {
        if self.0@ == "unbefristet"@ {
            "infinity"@
        } else {
            self.0@
        }
    }

    fn copy_to(&self, out: &mut String, ctx: PostgresCopyContext) {
        if crate::text::str_eq(self.0.as_str(), "unbefristet") {
            push_all(out, "infinity");
        } else {
            push_all(out, self.0.as_str());
        }
    }
}

} // verus!
