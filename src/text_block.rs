//! Assembly of text blocks from a page's drawing events.
use vstd::prelude::*;

use crate::text::push_all;
use crate::util::opt_view;

verus! {

/// What `lopdf::Document::decode_text` makes of bytes in the single-byte
/// encoding that the reports use.
pub uninterp spec fn win_ansi_text(bytes: Seq<u8>) -> Seq<char>;

/// Relies on `lopdf::Document::decode_text` with the encoding
/// "WinAnsiEncoding": each byte is looked up in the encoding's table, so the
/// result depends on the bytes alone, and no bytes give no text.
#[verifier::external_body]
pub(crate) fn decode_win_ansi(bytes: &Vec<u8>) -> (r: String)
    ensures
        r@ == win_ansi_text(bytes@),
        bytes@.len() == 0 ==> r@.len() == 0,
{
    lopdf::Document::decode_text(Some("WinAnsiEncoding"), bytes.as_slice())
}

/// A drawing instruction of a page that matters for its text. Positions are
/// given in whole page units, rounded down; the font size and the fill
/// colour are kept as the bit patterns of the numbers the page gives.
#[derive(Debug, Clone)]
pub enum DrawingEvent {
    /// A text region begins.
    BeginText,
    /// The text matrix is set; its offset on the page, where given.
    SetPosition { x: Option<u32>, y: Option<u32> },
    /// The font is set: its name as raw bytes, and its size.
    SetFont { family: Option<Vec<u8>>, size_bits: Option<u32> },
    /// The fill colour is set.
    SetFillColor { r_bits: u32, g_bits: u32, b_bits: u32 },
    /// Text is shown: the raw bytes of each string operand.
    ShowText(Vec<Vec<u8>>),
    /// The text region ends.
    EndText,
}

/// One reconstructed text region.
#[derive(Debug)]
pub struct TextBlock {
    pub x: Option<u32>,
    pub y: Option<u32>,
    pub font_family: Option<String>,
    pub font_size_bits: Option<u32>,
    pub fill_color_bits: Option<(u32, u32, u32)>,
    pub content: Option<String>,
}

/// The mathematical value of a text block.
pub struct TextBlockView {
    pub x: Option<u32>,
    pub y: Option<u32>,
    pub font_family: Option<Seq<char>>,
    pub font_size_bits: Option<u32>,
    pub fill_color_bits: Option<(u32, u32, u32)>,
    pub content: Option<Seq<char>>,
}

impl View for TextBlock {
    type V = TextBlockView;

    open spec fn view(&self) -> TextBlockView {
        TextBlockView {
            x: self.x,
            y: self.y,
            font_family: opt_view(self.font_family),
            font_size_bits: self.font_size_bits,
            fill_color_bits: self.fill_color_bits,
            content: opt_view(self.content),
        }
    }
}

/// A block that has just begun.
pub open spec fn empty_block() -> TextBlockView {
    TextBlockView {
        x: None,
        y: None,
        font_family: None,
        font_size_bits: None,
        fill_color_bits: None,
        content: None,
    }
}

/// The decoded text of all string operands of one text-show, in order.
pub open spec fn shown_text(ops: Seq<Vec<u8>>) -> Seq<char>
    decreases ops.len(),
{
    if ops.len() == 0 {
        Seq::empty()
    } else {
        shown_text(ops.drop_last()) + win_ansi_text(ops.last()@)
    }
}

/// Joins a fragment to the content so far: no separator after `-` or `/`,
/// a line break after `.` or `;`, a space otherwise. An empty fragment
/// changes nothing.
pub open spec fn join_fragment(prev: Option<Seq<char>>, frag: Seq<char>) -> Option<Seq<char>> {
    match prev {
        None => if frag.len() == 0 {
            None
        } else {
            Some(frag)
        },
        Some(p) => if frag.len() == 0 {
            Some(p)
        } else if p.len() > 0 && (p.last() == '-' || p.last() == '/') {
            Some(p + frag)
        } else if p.len() > 0 && (p.last() == '.' || p.last() == ';') {
            Some(p + seq!['\n'] + frag)
        } else {
            Some(p + seq![' '] + frag)
        },
    }
}

/// What an event does to the open block. Position, font and fill colour are
/// taken from their first occurrence only.
pub open spec fn apply_event(b: TextBlockView, e: DrawingEvent) -> TextBlockView {
    match e {
        DrawingEvent::SetPosition { x, y } => if b.x is Some || b.y is Some {
            b
        } else {
            TextBlockView { x, y, ..b }
        },
        DrawingEvent::SetFont { family, size_bits } => if b.font_family is Some || b.font_size_bits is Some {
            b
        } else {
            TextBlockView {
                font_family: match family {
                    Some(f) => Some(win_ansi_text(f@)),
                    None => None,
                },
                font_size_bits: size_bits,
                ..b
            }
        },
        DrawingEvent::SetFillColor { r_bits, g_bits, b_bits } => if b.fill_color_bits is Some {
            b
        } else {
            TextBlockView { fill_color_bits: Some((r_bits, g_bits, b_bits)), ..b }
        },
        DrawingEvent::ShowText(ops) => TextBlockView {
            content: join_fragment(b.content, shown_text(ops@)),
            ..b
        },
        _ => b,
    }
}

/// The blocks made of `events`, given the block that is open (if any) and
/// the blocks finished before. A begin while a block is open, and any event
/// but a begin while none is, are dropped.
pub open spec fn blocks_from(
    events: Seq<DrawingEvent>,
    open: Option<TextBlockView>,
    done: Seq<TextBlockView>,
) -> Seq<TextBlockView>
    decreases events.len(),
{
    if events.len() == 0 {
        done
    } else {
        let rest = events.drop_first();
        match (events[0], open) {
            (DrawingEvent::BeginText, None) => blocks_from(rest, Some(empty_block()), done),
            (DrawingEvent::EndText, Some(b)) => blocks_from(rest, None, done.push(b)),
            (e, Some(b)) => blocks_from(rest, Some(apply_event(b, e)), done),
            (_, None) => blocks_from(rest, None, done),
        }
    }
}

/// The blocks of a page's events.
pub open spec fn blocks_of(events: Seq<DrawingEvent>) -> Seq<TextBlockView> {
    blocks_from(events, None, Seq::empty())
}

/// The views of a sequence of blocks.
pub open spec fn block_views(bs: Seq<TextBlock>) -> Seq<TextBlockView> {
    bs.map_values(|b: TextBlock| b@)
}

impl TextBlock {
    /// A block that has just begun.
    pub fn new() -> (r: Self)
        ensures
            r@ == empty_block(),
    {
        TextBlock {
            x: None,
            y: None,
            font_family: None,
            font_size_bits: None,
            fill_color_bits: None,
            content: None,
        }
    }
}

/// Decodes and concatenates the string operands of one text-show.
fn decode_operands(ops: &Vec<Vec<u8>>) -> (r: String)
    ensures
        r@ == shown_text(ops@),
{
    let mut s = String::new();
    let mut i: usize = 0;
    while i < ops.len()
        invariant
            i <= ops@.len(),
            s@ == shown_text(ops@.subrange(0, i as int)),
        decreases ops@.len() - i,
    {
        let part = decode_win_ansi(&ops[i]);
        push_all(&mut s, part.as_str());
        i = i + 1;
        assert(ops@.subrange(0, i as int).drop_last() =~= ops@.subrange(0, i - 1));
    }
    assert(ops@.subrange(0, ops@.len() as int) =~= ops@);
    s
}

/// Joins a fragment to the content of a block.
pub fn join_content(prev: Option<String>, frag: String) -> (r: Option<String>)
    ensures
        opt_view(r) == join_fragment(opt_view(prev), frag@),
{
    match prev {
        None => {
            if frag.unicode_len() == 0 {
                None
            } else {
                Some(frag)
            }
        },
        Some(p) => {
            if frag.unicode_len() == 0 {
                return Some(p);
            }
            let n = p.unicode_len();
            let mut out = p;
            if n > 0 {
                let last = out.as_str().get_char(n - 1);
                if last == '-' || last == '/' {
                } else if last == '.' || last == ';' {
                    out.push('\n');
                } else {
                    out.push(' ');
                }
            } else {
                out.push(' ');
            }
            push_all(&mut out, frag.as_str());
            Some(out)
        },
    }
}

/// Applies one event to the open block.
fn apply(block: &mut TextBlock, event: &DrawingEvent)
    ensures
        final(block)@ == apply_event(old(block)@, *event),
{
    match event {
        DrawingEvent::SetPosition { x, y } => {
            if block.x.is_none() && block.y.is_none() {
                block.x = *x;
                block.y = *y;
            }
        },
        DrawingEvent::SetFont { family, size_bits } => {
            if block.font_family.is_none() && block.font_size_bits.is_none() {
                block.font_family = match family {
                    Some(f) => Some(decode_win_ansi(f)),
                    None => None,
                };
                block.font_size_bits = *size_bits;
            }
        },
        DrawingEvent::SetFillColor { r_bits, g_bits, b_bits } => {
            if block.fill_color_bits.is_none() {
                block.fill_color_bits = Some((*r_bits, *g_bits, *b_bits));
            }
        },
        DrawingEvent::ShowText(ops) => {
            let frag = decode_operands(ops);
            let prev = block.content.take();
            block.content = join_content(prev, frag);
        },
        _ => {},
    }
}

/// The text blocks of one page's drawing events, in order.
pub fn assemble_page(events: &Vec<DrawingEvent>) -> (r: Vec<TextBlock>)
    ensures
        block_views(r@) == blocks_of(events@),
{
    let mut done: Vec<TextBlock> = Vec::new();
    let mut open: Option<TextBlock> = None;
    let mut i: usize = 0;
    assert(events@.subrange(0, events@.len() as int) =~= events@);
    assert(block_views(done@) =~= Seq::<TextBlockView>::empty());
    while i < events.len()
        invariant
            i <= events@.len(),
            blocks_from(
                events@.subrange(i as int, events@.len() as int),
                match open { Some(b) => Some(b@), None => None },
                block_views(done@),
            ) == blocks_of(events@),
        decreases events@.len() - i,
    {
        let ghost rest = events@.subrange(i as int, events@.len() as int);
        let ghost prev_done = block_views(done@);
        assert(rest.drop_first() =~= events@.subrange(i + 1, events@.len() as int));
        let event = &events[i];
        match event {
            DrawingEvent::BeginText => {
                if open.is_none() {
                    open = Some(TextBlock::new());
                }
            },
            DrawingEvent::EndText => {
                match open.take() {
                    Some(b) => {
                        done.push(b);
                        assert(block_views(done@) =~= prev_done.push(done@.last()@));
                    },
                    None => {},
                }
            },
            _ => {
                match open.take() {
                    Some(b) => {
                        let mut b = b;
                        apply(&mut b, event);
                        open = Some(b);
                    },
                    None => {},
                }
            },
        }
        i = i + 1;
    }
    assert(events@.subrange(events@.len() as int, events@.len() as int) =~= Seq::<DrawingEvent>::empty());
    done
}

/// Whether an event arrives in a state it does not belong to: a begin
/// while a block is open, or a position, font, text or end while none is.
pub open spec fn is_unexpected(e: DrawingEvent, open: bool) -> bool {
    match e {
        DrawingEvent::BeginText => open,
        DrawingEvent::SetFillColor { .. } => false,
        _ => !open,
    }
}

/// How many of `events` arrive in a state they do not belong to, from the
/// state `open`.
pub open spec fn unexpected_from(events: Seq<DrawingEvent>, open: bool) -> nat
    decreases events.len(),
{
    if events.len() == 0 {
        0
    } else {
        let next = match events[0] {
            DrawingEvent::BeginText => true,
            DrawingEvent::EndText => false,
            _ => open,
        };
        (if is_unexpected(events[0], open) { 1nat } else { 0nat }) + unexpected_from(events.drop_first(), next)
    }
}

/// Counts the events of a page that arrive in a state they do not belong
/// to; the assembler drops them.
pub fn unexpected_events(events: &Vec<DrawingEvent>) -> (r: usize)
    ensures
        r == unexpected_from(events@, false),
{
    let mut count: usize = 0;
    let mut open = false;
    let mut i: usize = 0;
    assert(events@.subrange(0, events@.len() as int) =~= events@);
    while i < events.len()
        invariant
            i <= events@.len(),
            count <= i,
            count + unexpected_from(events@.subrange(i as int, events@.len() as int), open)
                == unexpected_from(events@, false),
        decreases events@.len() - i,
    {
        let ghost rest = events@.subrange(i as int, events@.len() as int);
        assert(rest.drop_first() =~= events@.subrange(i + 1, events@.len() as int));
        let unexpected = match &events[i] {
            DrawingEvent::BeginText => open,
            DrawingEvent::SetFillColor { .. } => false,
            _ => !open,
        };
        if unexpected {
            count = count + 1;
        }
        open = match &events[i] {
            DrawingEvent::BeginText => true,
            DrawingEvent::EndText => false,
            _ => open,
        };
        i = i + 1;
    }
    assert(events@.subrange(events@.len() as int, events@.len() as int) =~= Seq::<DrawingEvent>::empty());
    count
}

/// The text blocks of a document, page by page.
pub struct TextBlockRepr(pub Vec<Vec<TextBlock>>);

impl TextBlockRepr {
    /// Assembles the blocks of every page.
    pub fn from_pages(pages: &Vec<Vec<DrawingEvent>>) -> (r: Self)
        ensures
            r.0@.len() == pages@.len(),
            forall|i: int| 0 <= i < pages@.len() ==> block_views(#[trigger] r.0@[i]@) == blocks_of(pages@[i]@),
    {
        let mut out: Vec<Vec<TextBlock>> = Vec::new();
        let mut i: usize = 0;
        while i < pages.len()
            invariant
                i <= pages@.len(),
                out@.len() == i,
                forall|j: int| 0 <= j < i ==> block_views(#[trigger] out@[j]@) == blocks_of(pages@[j]@),
            decreases pages@.len() - i,
        {
            out.push(assemble_page(&pages[i]));
            i = i + 1;
        }
        TextBlockRepr(out)
    }
}

/// The content after joining text-shows, one after another, to `prev`.
pub open spec fn content_after(prev: Option<Seq<char>>, frags: Seq<Vec<Vec<u8>>>) -> Option<Seq<char>>
    decreases frags.len(),
{
    if frags.len() == 0 {
        prev
    } else {
        content_after(join_fragment(prev, shown_text(frags[0]@)), frags.drop_first())
    }
}

/// The text-show events of the fragments.
pub open spec fn show_events(frags: Seq<Vec<Vec<u8>>>) -> Seq<DrawingEvent> {
    frags.map_values(|f: Vec<Vec<u8>>| DrawingEvent::ShowText(f))
}

proof fn lemma_shows_then_end(frags: Seq<Vec<Vec<u8>>>, b: TextBlockView, done: Seq<TextBlockView>)
    ensures
        blocks_from(show_events(frags) + seq![DrawingEvent::EndText], Some(b), done)
            == done.push(TextBlockView { content: content_after(b.content, frags), ..b }),
    decreases frags.len(),
{
    let evs = show_events(frags) + seq![DrawingEvent::EndText];
    if frags.len() == 0 {
        assert(evs =~= seq![DrawingEvent::EndText]);
        assert(evs.drop_first() =~= Seq::<DrawingEvent>::empty());
        assert(evs[0] == DrawingEvent::EndText);
        assert(blocks_from(evs, Some(b), done) == blocks_from(evs.drop_first(), None, done.push(b)));
        assert(b == TextBlockView { content: b.content, ..b });
    } else {
        let rest = frags.drop_first();
        assert(evs[0] == DrawingEvent::ShowText(frags[0]));
        assert(evs.drop_first() =~= show_events(rest) + seq![DrawingEvent::EndText]);
        let b2 = apply_event(b, DrawingEvent::ShowText(frags[0]));
        assert(blocks_from(evs, Some(b), done) == blocks_from(evs.drop_first(), Some(b2), done));
        lemma_shows_then_end(rest, b2, done);
        assert(content_after(b.content, frags) == content_after(b2.content, rest));
        assert((TextBlockView { content: content_after(b2.content, rest), ..b2 })
            == (TextBlockView { content: content_after(b.content, frags), ..b }));
    }
}

/// The content of a block depends on its text fragments alone, in their
/// order: a page made of a begin, text-shows and an end gives exactly one
/// block, whose content is the fragments joined one after another, and
/// whatever the events, the same events give the same blocks.
pub proof fn lemma_join_deterministic(frags: Seq<Vec<Vec<u8>>>, other: Seq<DrawingEvent>)
    requires
        other == seq![DrawingEvent::BeginText] + show_events(frags) + seq![DrawingEvent::EndText],
    ensures
        blocks_of(other) == seq![TextBlockView { content: content_after(None, frags), ..empty_block() }],
        blocks_of(seq![DrawingEvent::BeginText] + show_events(frags) + seq![DrawingEvent::EndText]) == blocks_of(other),
{
    let evs = seq![DrawingEvent::BeginText] + show_events(frags) + seq![DrawingEvent::EndText];
    assert(evs.drop_first() =~= show_events(frags) + seq![DrawingEvent::EndText]);
    lemma_shows_then_end(frags, empty_block(), Seq::empty());
    assert(Seq::<TextBlockView>::empty().push(TextBlockView { content: content_after(None, frags), ..empty_block() })
        =~= seq![TextBlockView { content: content_after(None, frags), ..empty_block() }]);
}

} // verus!
