//! Grouping of text blocks into key-value pairs, with the font of a block as
//! the only sign of whether it is a label or a value.
use vstd::prelude::*;

use crate::text::{push_all, str_eq, views};
use crate::text_block::{block_views, TextBlock, TextBlockRepr, TextBlockView};

verus! {

/// A label with the values that follow it.
pub type KeyValuePair = (String, Vec<String>);

/// The key-value pairs of a document, in reading order.
pub struct KeyValueRepr(pub Vec<KeyValuePair>);

/// What a font says of the text set in it.
#[derive(Debug, Clone, Copy, PartialEq, Eq, Structural)]
pub enum FontRole {
    Label,
    Value,
    Other,
}

/// The role of each font of the reports: "F1" sets labels, "F2" and "F3"
/// set values.
pub open spec fn role_of(font: Seq<char>) -> FontRole {
    if font == "F1"@ {
        FontRole::Label
    } else if font == "F2"@ || font == "F3"@ {
        FontRole::Value
    } else {
        FontRole::Other
    }
}

/// Looks up the role of a font.
pub fn font_role(font: &str) -> (r: FontRole)
    ensures
        r == role_of(font@),
{
    if str_eq(font, "F1") {
        FontRole::Label
    } else if str_eq(font, "F2") || str_eq(font, "F3") {
        FontRole::Value
    } else {
        FontRole::Other
    }
}

/// A pair while it is built: its values keep the column they stand in.
pub type ColumnPair = (String, Vec<(u32, String)>);

/// The mathematical value of a pair while it is built.
pub type ColumnPairView = (Seq<char>, Seq<(u32, Seq<char>)>);

/// The value of a pair while it is built.
pub open spec fn column_pair_view(p: ColumnPair) -> ColumnPairView {
    (p.0@, p.1@.map_values(|v: (u32, String)| (v.0, v.1@)))
}

/// The values of pairs while they are built.
pub open spec fn column_pair_views(ps: Seq<ColumnPair>) -> Seq<ColumnPairView> {
    ps.map_values(|p: ColumnPair| column_pair_view(p))
}

/// The index of the first value in column `x`, or -1.
pub open spec fn first_in_column(vals: Seq<(u32, Seq<char>)>, x: u32) -> int
    decreases vals.len(),
{
    if vals.len() == 0 {
        -1
    } else if vals[0].0 == x {
        0
    } else {
        let k = first_in_column(vals.drop_first(), x);
        if k < 0 {
            -1
        } else {
            k + 1
        }
    }
}

/// The index of the last pair with a value in column `x`, or -1.
pub open spec fn last_with_column(ps: Seq<ColumnPairView>, x: u32) -> int
    decreases ps.len(),
{
    if ps.len() == 0 {
        -1
    } else if first_in_column(ps.last().1, x) >= 0 {
        ps.len() - 1
    } else {
        last_with_column(ps.drop_last(), x)
    }
}

/// A value without a label on its page continues the value in the same
/// column of the latest pair that has one: it is appended after a space.
/// Where no pair has a value in that column, it is dropped.
pub open spec fn continued(ps: Seq<ColumnPairView>, x: u32, content: Seq<char>) -> Seq<ColumnPairView> {
    let i = last_with_column(ps, x);
    if i < 0 {
        ps
    } else {
        let j = first_in_column(ps[i].1, x);
        let v = ps[i].1[j];
        ps.update(i, (ps[i].0, ps[i].1.update(j, (v.0, v.1 + seq![' '] + content))))
    }
}

/// The pairs after one page's blocks, from the pairs before it and the pair
/// being built; `None` where a block with text and font has no position.
pub open spec fn page_from(
    blocks: Seq<TextBlockView>,
    pairs: Seq<ColumnPairView>,
    entry: Option<ColumnPairView>,
) -> Option<Seq<ColumnPairView>>
    decreases blocks.len(),
{
    if blocks.len() == 0 {
        match entry {
            Some(e) => Some(pairs.push(e)),
            None => Some(pairs),
        }
    } else {
        let b = blocks[0];
        let rest = blocks.drop_first();
        match (b.content, b.font_family) {
            (Some(c), Some(f)) => match b.x {
                None => None,
                Some(x) => match role_of(f) {
                    FontRole::Label => match entry {
                        Some(e) => page_from(rest, pairs.push(e), Some((c, Seq::empty()))),
                        None => page_from(rest, pairs, Some((c, Seq::empty()))),
                    },
                    FontRole::Value => match entry {
                        Some(e) => page_from(rest, pairs, Some((e.0, e.1.push((x, c))))),
                        None => page_from(rest, continued(pairs, x, c), None),
                    },
                    FontRole::Other => page_from(rest, pairs, entry),
                },
            },
            _ => page_from(rest, pairs, entry),
        }
    }
}

/// The pairs after all pages.
pub open spec fn pages_from(pages: Seq<Seq<TextBlockView>>, pairs: Seq<ColumnPairView>) -> Option<Seq<ColumnPairView>>
    decreases pages.len(),
{
    if pages.len() == 0 {
        Some(pairs)
    } else {
        match page_from(pages[0], pairs, None) {
            Some(next) => pages_from(pages.drop_first(), next),
            None => None,
        }
    }
}

/// A pair without the columns of its values.
pub open spec fn without_columns(p: ColumnPairView) -> (Seq<char>, Seq<Seq<char>>) {
    (p.0, p.1.map_values(|v: (u32, Seq<char>)| v.1))
}

/// The view of a finished pair.
pub open spec fn pair_view(p: KeyValuePair) -> (Seq<char>, Seq<Seq<char>>) {
    (p.0@, views(p.1@))
}

/// The views of finished pairs.
pub open spec fn pair_views(ps: Seq<KeyValuePair>) -> Seq<(Seq<char>, Seq<Seq<char>>)> {
    ps.map_values(|p: KeyValuePair| pair_view(p))
}

/// The pairs that a document's pages give, or `None` where a block with
/// text and font has no position.
pub open spec fn pairs_of(pages: Seq<Seq<TextBlockView>>) -> Option<Seq<(Seq<char>, Seq<Seq<char>>)>> {
    match pages_from(pages, Seq::empty()) {
        Some(ps) => Some(ps.map_values(|p: ColumnPairView| without_columns(p))),
        None => None,
    }
}

proof fn lemma_first_in_column(vals: Seq<(u32, Seq<char>)>, x: u32)
    ensures
        -1 <= first_in_column(vals, x) < vals.len(),
        first_in_column(vals, x) >= 0 ==> vals[first_in_column(vals, x)].0 == x,
    decreases vals.len(),
{
    if vals.len() > 0 && vals[0].0 != x {
        lemma_first_in_column(vals.drop_first(), x);
    }
}

proof fn lemma_last_with_column(ps: Seq<ColumnPairView>, x: u32)
    ensures
        -1 <= last_with_column(ps, x) < ps.len(),
        last_with_column(ps, x) >= 0 ==> first_in_column(ps[last_with_column(ps, x)].1, x) >= 0,
    decreases ps.len(),
{
    if ps.len() > 0 && first_in_column(ps.last().1, x) < 0 {
        lemma_last_with_column(ps.drop_last(), x);
        let i = last_with_column(ps, x);
        if i >= 0 {
            assert(ps[i] == ps.drop_last()[i]);
        }
    }
}

/// The index of the first value in column `x`, or -1.
fn find_first_in_column(vals: &Vec<(u32, String)>, x: u32) -> (r: Option<usize>)
    ensures
        first_in_column(vals@.map_values(|v: (u32, String)| (v.0, v.1@)), x) == match r {
            Some(k) => k as int,
            None => -1,
        },
{
    let ghost vs = vals@.map_values(|v: (u32, String)| (v.0, v.1@));
    let mut k: usize = 0;
    while k < vals.len()
        invariant
            k <= vals@.len(),
            vs == vals@.map_values(|v: (u32, String)| (v.0, v.1@)),
            forall|m: int| 0 <= m < k ==> vs[m].0 != x,
        decreases vals@.len() - k,
    {
        if vals[k].0 == x {
            proof {
                lemma_first_skip(vs, x, k as int);
            }
            return Some(k);
        }
        k = k + 1;
    }
    proof {
        lemma_first_skip(vs, x, k as int);
    }
    None
}

proof fn lemma_first_skip(vs: Seq<(u32, Seq<char>)>, x: u32, k: int)
    requires
        0 <= k <= vs.len(),
        forall|m: int| 0 <= m < k ==> vs[m].0 != x,
    ensures
        k < vs.len() && vs[k].0 == x ==> first_in_column(vs, x) == k,
        k == vs.len() ==> first_in_column(vs, x) == -1,
    decreases k,
{
    if k > 0 {
        let d = vs.drop_first();
        assert forall|m: int| 0 <= m < k - 1 implies d[m].0 != x by {
            assert(d[m] == vs[m + 1]);
        }
        lemma_first_skip(d, x, k - 1);
        if k < vs.len() {
            assert(d[k - 1] == vs[k]);
        }
    }
}

/// Appends a value without a label to the value it continues.
fn continue_value(pairs: &mut Vec<ColumnPair>, x: u32, content: &String)
    ensures
        column_pair_views(final(pairs)@) == continued(column_pair_views(old(pairs)@), x, content@),
        final(pairs)@.len() == old(pairs)@.len(),
        forall|i: int| 0 <= i < final(pairs)@.len() ==> (#[trigger] final(pairs)@[i]).1@.len() == old(pairs)@[i].1@.len(),
{
    let ghost ps = column_pair_views(pairs@);
    let mut i: usize = pairs.len();
    let mut found: Option<usize> = None;
    assert(ps.subrange(0, i as int) =~= ps);
    while i > 0 && found.is_none()
        invariant
            i <= pairs@.len(),
            ps == column_pair_views(pairs@),
            found is None ==> last_with_column(ps, x) == last_with_column(ps.subrange(0, i as int), x),
            found matches Some(k) ==> i > 0 && last_with_column(ps, x) == i - 1 && k == first_in_column(ps[i - 1].1, x),
        decreases i, if found is None { 1int } else { 0int },
    {
        let f = find_first_in_column(&pairs[i - 1].1, x);
        assert(ps.subrange(0, i as int).last() == ps[i - 1]);
        if f.is_some() {
            found = f;
        } else {
            assert(ps.subrange(0, i as int).drop_last() =~= ps.subrange(0, i - 1));
            i = i - 1;
        }
    }
    proof {
        lemma_last_with_column(ps, x);
    }
    let j = match found {
        None => {
            assert(ps.subrange(0, 0) =~= Seq::<ColumnPairView>::empty());
            assert(last_with_column(ps, x) == -1);
            return;
        },
        Some(j) => j,
    };
    let i = i - 1;
    proof {
        lemma_first_in_column(ps[i as int].1, x);
    }
    let ghost old_pairs = pairs@;
    let ghost old_p = pairs@[i as int];
    let mut p: ColumnPair = (String::new(), Vec::new());
    std::mem::swap(&mut pairs[i], &mut p);
    assert(p == old_p);
    let (key, mut vals) = p;
    let ghost old_vals = vals@;
    assert(old_vals == old_p.1@);
    let mut v: (u32, String) = (0, String::new());
    std::mem::swap(&mut vals[j], &mut v);
    assert(v == old_vals[j as int]);
    let (col, mut s) = v;
    s.push(' ');
    push_all(&mut s, content.as_str());
    let ghost new_v = (col, s);
    vals[j] = (col, s);
    assert(vals@ =~= old_vals.update(j as int, new_v));
    let ghost new_p = (key, vals);
    pairs[i] = (key, vals);
    proof {
        assert(pairs@[i as int] == new_p);
        assert(last_with_column(ps, x) == i as int);
        assert(first_in_column(ps[i as int].1, x) == j as int);
        assert(ps[i as int] == column_pair_view(old_p));
        assert(new_p.1@[j as int] == new_v);
        assert(new_v.1@ == old_vals[j as int].1@ + seq![' '] + content@);
        let want = continued(ps, x, content@);
        let vj = ps[i as int].1[j as int];
        assert(vj == (old_p.1@[j as int].0, old_p.1@[j as int].1@));
        assert(column_pair_view(pairs@[i as int]).1 =~= ps[i as int].1.update(j as int, (vj.0, vj.1 + seq![' '] + content@)));
        assert(pairs@ =~= old_pairs.update(i as int, pairs@[i as int]));
        assert(column_pair_views(pairs@) =~= want);
    }
}

/// The value of the pair being built, if any.
pub open spec fn opt_column_pair_view(e: Option<ColumnPair>) -> Option<ColumnPairView> {
    match e {
        Some(p) => Some(column_pair_view(p)),
        None => None,
    }
}

/// Groups the blocks of one page, adding to the pairs before it; `false`
/// where a block with text and font has no position.
fn group_page(page: &Vec<TextBlock>, pairs: &mut Vec<ColumnPair>) -> (ok: bool)
    ensures
        page_from(block_views(page@), column_pair_views(old(pairs)@), None) == if ok {
            Some(column_pair_views(final(pairs)@))
        } else {
            None
        },
{
    let ghost bv = block_views(page@);
    let ghost start = column_pair_views(pairs@);
    let mut entry: Option<ColumnPair> = None;
    let mut j: usize = 0;
    assert(bv.subrange(0, bv.len() as int) =~= bv);
    while j < page.len()
        invariant
            j <= page@.len(),
            bv == block_views(page@),
            start == column_pair_views(old(pairs)@),
            page_from(bv.subrange(j as int, bv.len() as int), column_pair_views(pairs@), opt_column_pair_view(entry))
                == page_from(bv, start, None),
        decreases page@.len() - j,
    {
        let ghost rest = bv.subrange(j as int, bv.len() as int);
        assert(rest.drop_first() =~= bv.subrange(j + 1, bv.len() as int));
        assert(rest[0] == page@[j as int]@);
        let ghost before = column_pair_views(pairs@);
        let block = &page[j];
        match (&block.content, &block.font_family) {
            (Some(content), Some(family)) => {
                match block.x {
                    None => {
                        assert(page_from(rest, before, opt_column_pair_view(entry)) is None);
                        return false;
                    },
                    Some(x) => {
                        match font_role(family.as_str()) {
                            FontRole::Label => {
                                match entry.take() {
                                    Some(e) => {
                                        pairs.push(e);
                                        assert(column_pair_views(pairs@) =~= before.push(column_pair_view(e)));
                                    },
                                    None => {},
                                }
                                entry = Some((content.clone(), Vec::new()));
                                assert(column_pair_view(entry.unwrap()).1 =~= Seq::<(u32, Seq<char>)>::empty());
                            },
                            FontRole::Value => {
                                match entry.take() {
                                    Some(e) => {
                                        let (key, mut vals) = e;
                                        let ghost old_vals = column_pair_view((key, vals)).1;
                                        vals.push((x, content.clone()));
                                        assert(column_pair_view((key, vals)).1 =~= old_vals.push((x, content@)));
                                        entry = Some((key, vals));
                                    },
                                    None => {
                                        continue_value(pairs, x, content);
                                    },
                                }
                            },
                            FontRole::Other => {},
                        }
                    },
                }
            },
            _ => {},
        }
        j = j + 1;
    }
    match entry {
        Some(e) => {
            let ghost before = column_pair_views(pairs@);
            pairs.push(e);
            assert(column_pair_views(pairs@) =~= before.push(column_pair_view(e)));
        },
        None => {},
    }
    true
}

/// The views of the blocks of each page.
pub open spec fn page_views(pages: Seq<Vec<TextBlock>>) -> Seq<Seq<TextBlockView>> {
    pages.map_values(|p: Vec<TextBlock>| block_views(p@))
}

impl KeyValueRepr {
    /// Groups the blocks of a document into key-value pairs: a block in a
    /// label font starts a pair, a block in a value font adds a value to the
    /// pair being built; a value with no pair on its page continues the
    /// value in the same column of an earlier pair. `None` where a block
    /// with text and font has no position.
    pub fn from_blocks(repr: TextBlockRepr) -> (r: Option<KeyValueRepr>)
        ensures
            match (r, pairs_of(page_views(repr.0@))) {
                (Some(kv), Some(ps)) => kv.0@.map_values(|p: KeyValuePair| pair_view(p)) == ps,
                (None, None) => true,
                _ => false,
            },
    {
        let pages = &repr.0;
        let ghost pv = page_views(pages@);
        let mut pairs: Vec<ColumnPair> = Vec::new();
        let mut i: usize = 0;
        assert(pv.subrange(0, pv.len() as int) =~= pv);
        assert(column_pair_views(pairs@) =~= Seq::<ColumnPairView>::empty());
        while i < pages.len()
            invariant
                i <= pages@.len(),
                pv == page_views(pages@),
                pages@ == repr.0@,
                pages_from(pv.subrange(i as int, pv.len() as int), column_pair_views(pairs@))
                    == pages_from(pv, Seq::empty()),
            decreases pages@.len() - i,
        {
            let ghost rest = pv.subrange(i as int, pv.len() as int);
            assert(rest.drop_first() =~= pv.subrange(i + 1, pv.len() as int));
            let ghost old_pairs = pairs@;
            assert(rest[0] == block_views(pages@[i as int]@));
            if !group_page(&pages[i], &mut pairs) {
                assert(pages_from(rest, column_pair_views(old_pairs)) is None);
                assert(pages_from(pv, Seq::empty()) is None);
                return None;
            }
            i = i + 1;
        }
        assert(pv.subrange(pv.len() as int, pv.len() as int) =~= Seq::<Seq<TextBlockView>>::empty());
        let ghost cols = column_pair_views(pairs@);
        let mut out: Vec<KeyValuePair> = Vec::new();
        let mut k: usize = 0;
        while k < pairs.len()
            invariant
                k <= pairs@.len(),
                cols == column_pair_views(pairs@),
                out@.map_values(|p: KeyValuePair| pair_view(p))
                    == cols.subrange(0, k as int).map_values(|p: ColumnPairView| without_columns(p)),
            decreases pairs@.len() - k,
        {
            let ghost before = out@.map_values(|p: KeyValuePair| pair_view(p));
            let (key, vals) = &pairs[k];
            let mut values: Vec<String> = Vec::new();
            let mut m: usize = 0;
            while m < vals.len()
                invariant
                    m <= vals@.len(),
                    views(values@) == vals@.subrange(0, m as int).map_values(|v: (u32, String)| v.1@),
                decreases vals@.len() - m,
            {
                let ghost prev = views(values@);
                values.push(vals[m].1.clone());
                assert(views(values@) =~= prev.push(vals@[m as int].1@));
                assert(vals@.subrange(0, m + 1).map_values(|v: (u32, String)| v.1@)
                    =~= vals@.subrange(0, m as int).map_values(|v: (u32, String)| v.1@).push(vals@[m as int].1@));
                m = m + 1;
            }
            assert(vals@.subrange(0, vals@.len() as int) =~= vals@);
            out.push((key.clone(), values));
            proof {
                let w = without_columns(cols[k as int]);
                assert(w.1 =~= vals@.map_values(|v: (u32, String)| v.1@));
                assert(pair_view(out@.last()) == w);
                assert(out@.map_values(|p: KeyValuePair| pair_view(p)) =~= before.push(w));
                assert(cols.subrange(0, k + 1).map_values(|p: ColumnPairView| without_columns(p))
                    =~= cols.subrange(0, k as int).map_values(|p: ColumnPairView| without_columns(p)).push(w));
            }
            k = k + 1;
        }
        assert(cols.subrange(0, cols.len() as int) =~= cols);
        Some(KeyValueRepr(out))
    }
}

} // verus!
