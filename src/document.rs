//! The whole pipeline for one report, and the clean-up of its record.
use vstd::prelude::*;

use crate::grouped::{annotation_of, department_views, departments_in, root_of, GroupedKeyValueRepr};
use crate::key_value::{page_views, pair_views, pairs_of, KeyValuePair, KeyValueRepr};
use crate::model::{WaterRight, WaterRightNo};
use crate::numbers::{find_char, index_of, lemma_index_of};
use crate::parse::{
    abbreviations_after, department_from, department_valid, identifier_parts, root_entry_valid, last_of_its_kind, last_root_value, parse_departments,
    parse_root, ParseError, RootKey,
};
use crate::text::{chars_of, push_all, string_of_range};
use crate::text_block::{blocks_of, DrawingEvent, TextBlockRepr, TextBlockView};
use crate::util::opt_view;

verus! {

/// The blocks of each page's events.
pub open spec fn page_blocks(pages: Seq<Vec<DrawingEvent>>) -> Seq<Seq<TextBlockView>> {
    pages.map_values(|p: Vec<DrawingEvent>| blocks_of(p@))
}

/// Whether the fields of a water right that the root section fills are
/// those that the root entries `items` give a blank water right.
pub open spec fn root_read(w: WaterRight, items: Seq<KeyValuePair>) -> bool {
    let id = last_root_value(items, RootKey::Identifier, None);
    &&& opt_view(w.water_authority) == last_root_value(items, RootKey::WaterAuthority, None)
    &&& opt_view(w.registering_authority) == last_root_value(items, RootKey::RegisteringAuthority, None)
    &&& opt_view(w.granting_authority) == last_root_value(items, RootKey::GrantingAuthority, None)
    &&& opt_view(w.valid_from) == last_root_value(items, RootKey::ValidFrom, None)
    &&& opt_view(w.initially_granted) == last_root_value(items, RootKey::InitiallyGranted, None)
    &&& opt_view(w.file_reference) == last_root_value(items, RootKey::FileReference, None)
    &&& opt_view(w.valid_until) == last_root_value(items, RootKey::ValidUntil, None)
    &&& opt_view(w.subject) == last_root_value(items, RootKey::Subject, None)
    &&& match id {
        Some(v) => opt_view(w.status) == Some(identifier_parts(v).0) && opt_view(w.external_identifier) == identifier_parts(v).1,
        None => w.status is None && w.external_identifier is None,
    }
}

/// Whether every root entry of the pairs can be read.
pub open spec fn root_valid(ps: Seq<KeyValuePair>) -> bool {
    forall|i: int| 0 <= i < root_of(ps).len() ==> root_entry_valid(#[trigger] root_of(ps)[i])
}

/// Whether every department of the segmented pairs can be read.
pub open spec fn departments_valid(ds: Seq<(String, Vec<Vec<KeyValuePair>>)>) -> bool {
    forall|i: int| 0 <= i < ds.len() ==> department_valid(#[trigger] ds[i])
}

/// Reads the water right of one report from the drawing events of its
/// pages: text blocks are assembled, grouped into pairs, segmented, and the
/// root and department sections are read; the trailing labels become the
/// annotation.
pub fn parse_document(no: WaterRightNo, pages: &Vec<Vec<DrawingEvent>>) -> (r: Result<WaterRight, ParseError>)
    ensures
        r matches Ok(w) ==> w.no == no,
        (r matches Err(ParseError::MissingPosition)) <==> pairs_of(page_blocks(pages@)) is None,
        pairs_of(page_blocks(pages@)) is Some ==> exists|ps: Seq<KeyValuePair>, ds: Seq<(String, Vec<Vec<KeyValuePair>>)>|
            #![trigger pair_views(ps), department_views(ds)]
        {
            &&& pair_views(ps) == pairs_of(page_blocks(pages@))->0
            &&& department_views(ds) == departments_in(ps)
            &&& r is Ok <==> (root_valid(ps) && departments_valid(ds))
            &&& r matches Ok(w) ==> {
                &&& root_read(w, root_of(ps))
                &&& opt_view(w.annotation) == annotation_of(ps)
                &&& w.abbreviations() == abbreviations_after(Seq::empty(), ds)
                &&& forall|i: int| 0 <= i < ds.len() && last_of_its_kind(ds, i, ds.len() as int)
                    ==> department_from(w, #[trigger] ds[i])
            }
        },
{
    let blocks = TextBlockRepr::from_pages(pages);
    assert(page_views(blocks.0@) =~= page_blocks(pages@));
    let pairs = match KeyValueRepr::from_blocks(blocks) {
        Some(p) => p,
        None => {
            return Err(ParseError::MissingPosition);
        },
    };
    let ghost ps = pairs.0@;
    let grouped = GroupedKeyValueRepr::from_pairs(pairs);
    let ghost ds = grouped.departments@;
    assert(pair_views(ps) == pairs_of(page_blocks(pages@))->0);
    assert(department_views(ds) == departments_in(ps));
    let mut water_right = WaterRight::new(no);
    match parse_root(&grouped.root, &mut water_right) {
        Ok(()) => {},
        Err(e) => {
            assert(!root_valid(ps));
            return Err(e);
        },
    }
    assert(water_right.legal_departments@.len() == 0);
    assert(water_right.abbreviations() =~= Seq::<crate::model::LegalDepartmentAbbreviation>::empty());
    match parse_departments(&grouped.departments, &mut water_right) {
        Ok(()) => {},
        Err(e) => {
            assert(!departments_valid(ds));
            return Err(e);
        },
    }
    water_right.annotation = grouped.annotation;
    assert(root_read(water_right, root_of(ps)));
    assert(water_right.abbreviations() == abbreviations_after(Seq::empty(), ds));
    assert(root_valid(ps) && departments_valid(ds));
    assert(forall|i: int| 0 <= i < ds.len() && last_of_its_kind(ds, i, ds.len() as int)
        ==> department_from(water_right, #[trigger] ds[i]));
    assert(pair_views(ps) == pairs_of(page_blocks(pages@))->0);
    Ok(water_right)
}

/// The annotation without the label it starts with: a lone "Bemerkung:"
/// is none, and "Bemerkung: " before a text is dropped.
pub open spec fn annotation_text(a: Option<Seq<char>>) -> Option<Seq<char>> {
    match a {
        None => None,
        Some(s) => if s == "Bemerkung:"@ {
            None
        } else if s.len() >= 11 && s.subrange(0, 11) == "Bemerkung: "@ {
            Some(s.subrange(11, s.len() as int))
        } else {
            Some(s)
        },
    }
}

/// The ISO form `<year>-<month>-<day>` of a date written
/// `<day>.<month>.<year>`; `None` for a text with another number of points.
pub open spec fn iso_date(s: Seq<char>) -> Option<Seq<char>> {
    let i1 = index_of(s, '.') as int;
    let rest = if i1 < s.len() { s.subrange(i1 + 1, s.len() as int) } else { Seq::empty() };
    let i2 = index_of(rest, '.') as int;
    let rest2 = if i2 < rest.len() { rest.subrange(i2 + 1, rest.len() as int) } else { Seq::empty() };
    if i1 < s.len() && i2 < rest.len() && index_of(rest2, '.') == rest2.len() {
        Some(rest2 + seq!['-'] + rest.subrange(0, i2) + seq!['-'] + s.subrange(0, i1))
    } else {
        None
    }
}

/// Rewrites a date into ISO form; `false` where it has another shape, in
/// which case it stays as it is.
pub fn normalize_date(date: &mut Option<String>) -> (ok: bool)
    ensures
        match opt_view(*old(date)) {
            None => ok && *final(date) == *old(date),
            Some(s) => match iso_date(s) {
                Some(t) => ok && opt_view(*final(date)) == Some(t),
                None => !ok && *final(date) == *old(date),
            },
        },
{
    let v = match date {
        Some(d) => chars_of(d.as_str()),
        None => {
            return true;
        },
    };
    let n = v.len();
    let ghost s = v@;
    proof {
        lemma_index_of(s, '.');
        assert(s.subrange(0, n as int) =~= s);
    }
    let i1 = find_char(&v, 0, '.');
    if i1 >= n {
        return false;
    }
    let ghost rest = s.subrange(i1 + 1, n as int);
    proof {
        lemma_index_of(rest, '.');
    }
    let i2 = find_char(&v, i1 + 1, '.');
    if i2 >= n {
        return false;
    }
    let ghost rest2 = rest.subrange(i2 - i1, rest.len() as int);
    assert(rest2 =~= s.subrange(i2 + 1, n as int));
    let i3 = find_char(&v, i2 + 1, '.');
    proof {
        lemma_index_of(rest2, '.');
    }
    if i3 < n {
        return false;
    }
    let mut out = string_of_range(&v, i2 + 1, n);
    out.push('-');
    let month = string_of_range(&v, i1 + 1, i2);
    push_all(&mut out, month.as_str());
    out.push('-');
    let day = string_of_range(&v, 0, i1);
    push_all(&mut out, day.as_str());
    assert(rest.subrange(0, i2 - i1 - 1) =~= s.subrange(i1 + 1, i2 as int));
    assert(out@ =~= rest2 + seq!['-'] + rest.subrange(0, i2 - i1 - 1) + seq!['-'] + s.subrange(0, i1 as int));
    assert(iso_date(s) == Some(out@));
    *date = Some(out);
    true
}

/// A problem that does not stop a report from being read.
#[derive(Debug, PartialEq, Eq)]
pub enum Warning {
    /// A date of the water right has another shape than `<day>.<month>.<year>`.
    InvalidDateFormat { water_right_no: WaterRightNo },
    /// No row of the spreadsheet matches a usage location of the report.
    CouldNotFindUsageLocation { water_right_no: WaterRightNo },
    /// Rows of the spreadsheet that no usage location of the report matched.
    MissingLocations { water_right_no: WaterRightNo, missing_locations: Vec<u64> },
}

/// Cleans up a freshly read water right: the annotation loses its label,
/// a missing granting authority is taken from the registering one, and
/// the dates are rewritten into ISO form. Gives one warning per date of
/// another shape.
pub fn finish_water_right(water_right: &mut WaterRight) -> (warnings: Vec<Warning>)
    ensures
        opt_view(final(water_right).annotation) == annotation_text(opt_view(old(water_right).annotation)),
        final(water_right).granting_authority == if old(water_right).granting_authority is None {
            old(water_right).registering_authority
        } else {
            old(water_right).granting_authority
        },
        forall|i: int| 0 <= i < warnings@.len() ==> warnings@[i] == (Warning::InvalidDateFormat { water_right_no: old(water_right).no }),
        warnings@.len() == (if old(water_right).valid_until matches Some(d) && iso_date(d@) is None { 1int } else { 0 })
            + (if old(water_right).valid_from matches Some(d) && iso_date(d@) is None { 1int } else { 0 })
            + (if old(water_right).initially_granted matches Some(d) && iso_date(d@) is None { 1int } else { 0 })
            + (if old(water_right).last_change matches Some(d) && iso_date(d@) is None { 1int } else { 0 }),
        date_rewritten(opt_view(old(water_right).valid_until), opt_view(final(water_right).valid_until)),
        date_rewritten(opt_view(old(water_right).valid_from), opt_view(final(water_right).valid_from)),
        date_rewritten(opt_view(old(water_right).initially_granted), opt_view(final(water_right).initially_granted)),
        date_rewritten(opt_view(old(water_right).last_change), opt_view(final(water_right).last_change)),
        final(water_right).no == old(water_right).no,
        *final(water_right) == (WaterRight {
            annotation: final(water_right).annotation,
            granting_authority: final(water_right).granting_authority,
            valid_until: final(water_right).valid_until,
            valid_from: final(water_right).valid_from,
            initially_granted: final(water_right).initially_granted,
            last_change: final(water_right).last_change,
            ..*old(water_right)
        }),
{
    let no = water_right.no;
    let annotation = water_right.annotation.take();
    water_right.annotation = clean_annotation(annotation);
    if water_right.granting_authority.is_none() {
        water_right.granting_authority = water_right.registering_authority.clone();
    }
    let mut warnings: Vec<Warning> = Vec::new();
    if !normalize_date(&mut water_right.valid_until) {
        warnings.push(Warning::InvalidDateFormat { water_right_no: no });
    }
    if !normalize_date(&mut water_right.valid_from) {
        warnings.push(Warning::InvalidDateFormat { water_right_no: no });
    }
    if !normalize_date(&mut water_right.initially_granted) {
        warnings.push(Warning::InvalidDateFormat { water_right_no: no });
    }
    if !normalize_date(&mut water_right.last_change) {
        warnings.push(Warning::InvalidDateFormat { water_right_no: no });
    }
    warnings
}

/// What the clean-up does to a date: its ISO form where it has the shape
/// of a date, else nothing.
pub open spec fn date_rewritten(before: Option<Seq<char>>, after: Option<Seq<char>>) -> bool {
    match before {
        None => after is None,
        Some(s) => match iso_date(s) {
            Some(t) => after == Some(t),
            None => after == before,
        },
    }
}

/// Drops the label of an annotation.
fn clean_annotation(annotation: Option<String>) -> (r: Option<String>)
    ensures
        opt_view(r) == annotation_text(opt_view(annotation)),
{
    match annotation {
        None => None,
        Some(a) => {
            let v = chars_of(a.as_str());
            proof {
                reveal_strlit("Bemerkung:");
                reveal_strlit("Bemerkung: ");
            }
            let n = v.len();
            assert("Bemerkung:"@.len() == 10);
            assert("Bemerkung: "@.len() == 11);
            assert(v@.subrange(0, n as int) =~= v@);
            if n >= 10 && crate::helper_types::chars_eq(&v, 0, n, "Bemerkung:") {
                None
            } else if n >= 11 && crate::helper_types::chars_eq(&v, 0, 11, "Bemerkung: ") {
                Some(string_of_range(&v, 11, n))
            } else {
                assert(a@ != "Bemerkung:"@);
                assert(!(a@.len() >= 11 && a@.subrange(0, 11) == "Bemerkung: "@));
                Some(a)
            }
        },
    }
}

} // verus!
