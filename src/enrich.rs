//! Filling absent fields of a parsed water right from the rows of the
//! spreadsheet extract.
use vstd::prelude::*;

use crate::document::Warning;
use crate::fields::{parse_purpose, purpose_of};
use crate::model::{LegalDepartment, UsageLocation, WaterRight, WaterRightNo};
use crate::util::{opt_view, sanitize, sanitized, zero_is_none};

verus! {

/// A row of the spreadsheet extract: one usage location of one water right.
#[derive(Debug)]
pub struct CadenzaTableRowInner {
    /// "Wasserrecht Nr."
    pub no: WaterRightNo,
    /// "Rechtsinhaber"
    pub rights_holder: Option<String>,
    /// "Gültig Bis"
    pub valid_until: Option<String>,
    /// "Zustand"
    pub status: Option<String>,
    /// "Gültig Ab"
    pub valid_from: Option<String>,
    /// "Rechtsabteilungen"
    pub legal_departments: Option<String>,
    /// "Rechtstitel"
    pub legal_title: Option<String>,
    /// "Wasserbehoerde"
    pub water_authority: Option<String>,
    /// "Erteilende Behoerde"
    pub granting_authority: Option<String>,
    /// "Aenderungsdatum"
    pub date_of_change: Option<String>,
    /// "Aktenzeichen"
    pub file_reference: Option<String>,
    /// "Externe Kennung"
    pub external_identifier: Option<String>,
    /// "Betreff"
    pub subject: Option<String>,
    /// "Adresse"
    pub address: Option<String>,
    /// "Nutzungsort Nr."
    pub usage_location_no: u64,
    /// "Nutzungsort"
    pub usage_location: Option<String>,
    /// "Rechtsabteilung"
    pub legal_department: String,
    /// "Rechtszweck"
    pub legal_purpose: Option<String>,
    /// "Landkreis"
    pub county: Option<String>,
    /// "Flussgebiet"
    pub river_basin: Option<String>,
    /// "Grundwasserkörper"
    pub groundwater_body: Option<String>,
    /// "Überschwemmungsgebiet"
    pub flood_area: Option<String>,
    /// "Wasserschutzgebiet"
    pub water_protection_area: Option<String>,
    /// "UTM-Rechtswert"
    pub utm_easting: Option<u64>,
    /// "UTM-Hochwert"
    pub utm_northing: Option<u64>,
}

/// Makes the texts of a spreadsheet row plain: white space around them is
/// removed, and a text that is then empty or a lone `-` counts as absent.
pub fn sanitize_row(row: &mut CadenzaTableRowInner)
    ensures
        opt_view(final(row).rights_holder) == sanitized(opt_view(old(row).rights_holder)),
        opt_view(final(row).valid_until) == sanitized(opt_view(old(row).valid_until)),
        opt_view(final(row).status) == sanitized(opt_view(old(row).status)),
        opt_view(final(row).valid_from) == sanitized(opt_view(old(row).valid_from)),
        opt_view(final(row).legal_departments) == sanitized(opt_view(old(row).legal_departments)),
        opt_view(final(row).legal_title) == sanitized(opt_view(old(row).legal_title)),
        opt_view(final(row).water_authority) == sanitized(opt_view(old(row).water_authority)),
        opt_view(final(row).granting_authority) == sanitized(opt_view(old(row).granting_authority)),
        opt_view(final(row).date_of_change) == sanitized(opt_view(old(row).date_of_change)),
        opt_view(final(row).file_reference) == sanitized(opt_view(old(row).file_reference)),
        opt_view(final(row).external_identifier) == sanitized(opt_view(old(row).external_identifier)),
        opt_view(final(row).subject) == sanitized(opt_view(old(row).subject)),
        opt_view(final(row).address) == sanitized(opt_view(old(row).address)),
        opt_view(final(row).usage_location) == sanitized(opt_view(old(row).usage_location)),
        opt_view(final(row).legal_purpose) == sanitized(opt_view(old(row).legal_purpose)),
        opt_view(final(row).county) == sanitized(opt_view(old(row).county)),
        opt_view(final(row).river_basin) == sanitized(opt_view(old(row).river_basin)),
        opt_view(final(row).groundwater_body) == sanitized(opt_view(old(row).groundwater_body)),
        opt_view(final(row).flood_area) == sanitized(opt_view(old(row).flood_area)),
        opt_view(final(row).water_protection_area) == sanitized(opt_view(old(row).water_protection_area)),
        *final(row) == (CadenzaTableRowInner {
            rights_holder: final(row).rights_holder,
            valid_until: final(row).valid_until,
            status: final(row).status,
            valid_from: final(row).valid_from,
            legal_departments: final(row).legal_departments,
            legal_title: final(row).legal_title,
            water_authority: final(row).water_authority,
            granting_authority: final(row).granting_authority,
            date_of_change: final(row).date_of_change,
            file_reference: final(row).file_reference,
            external_identifier: final(row).external_identifier,
            subject: final(row).subject,
            address: final(row).address,
            usage_location: final(row).usage_location,
            legal_purpose: final(row).legal_purpose,
            county: final(row).county,
            river_basin: final(row).river_basin,
            groundwater_body: final(row).groundwater_body,
            flood_area: final(row).flood_area,
            water_protection_area: final(row).water_protection_area,
            ..*old(row)
        }),
{
    row.rights_holder = sanitize(row.rights_holder.take());
    row.valid_until = sanitize(row.valid_until.take());
    row.status = sanitize(row.status.take());
    row.valid_from = sanitize(row.valid_from.take());
    row.legal_departments = sanitize(row.legal_departments.take());
    row.legal_title = sanitize(row.legal_title.take());
    row.water_authority = sanitize(row.water_authority.take());
    row.granting_authority = sanitize(row.granting_authority.take());
    row.date_of_change = sanitize(row.date_of_change.take());
    row.file_reference = sanitize(row.file_reference.take());
    row.external_identifier = sanitize(row.external_identifier.take());
    row.subject = sanitize(row.subject.take());
    row.address = sanitize(row.address.take());
    row.usage_location = sanitize(row.usage_location.take());
    row.legal_purpose = sanitize(row.legal_purpose.take());
    row.county = sanitize(row.county.take());
    row.river_basin = sanitize(row.river_basin.take());
    row.groundwater_body = sanitize(row.groundwater_body.take());
    row.flood_area = sanitize(row.flood_area.take());
    row.water_protection_area = sanitize(row.water_protection_area.take());
}

/// The first value that the rows of water right `no` give, in row order.
pub open spec fn first_given(
    rows: Seq<CadenzaTableRowInner>,
    no: WaterRightNo,
    f: spec_fn(CadenzaTableRowInner) -> Option<String>,
) -> Option<String>
    decreases rows.len(),
{
    if rows.len() == 0 {
        None
    } else {
        let p = first_given(rows.drop_last(), no, f);
        if p is Some {
            p
        } else if rows.last().no == no {
            f(rows.last())
        } else {
            None
        }
    }
}

/// A field kept where it is set, else taken from the rows.
pub open spec fn filled(
    o: Option<String>,
    rows: Seq<CadenzaTableRowInner>,
    no: WaterRightNo,
    f: spec_fn(CadenzaTableRowInner) -> Option<String>,
) -> Option<String> {
    if o is Some {
        o
    } else {
        first_given(rows, no, f)
    }
}

fn clone_text(o: &Option<String>) -> (r: Option<String>)
    ensures
        r == *o,
{
    match o {
        Some(s) => Some(s.clone()),
        None => None,
    }
}

fn fill(target: &mut Option<String>, from: &Option<String>)
    ensures
        *final(target) == if (*old(target)) is Some { *old(target) } else { *from },
{
    if target.is_none() {
        *target = clone_text(from);
    }
}

/// A coordinate, with zero as absent.
pub open spec fn nonzero(c: Option<u64>) -> Option<u64> {
    match c {
        Some(v) => if v == 0 {
            None
        } else {
            Some(v)
        },
        None => None,
    }
}

/// The value of a field that is kept where set and else taken from `from`.
pub open spec fn kept_or<T>(o: Option<T>, from: Option<T>) -> Option<T> {
    if o is Some {
        o
    } else {
        from
    }
}

/// A usage location filled from its row: each field that the spreadsheet
/// knows keeps its value where set and else takes the row's (the legal
/// purpose split into code and name); zero coordinates count as absent;
/// the other fields stay.
pub open spec fn filled_from_row(o: UsageLocation, row: CadenzaTableRowInner, f: UsageLocation) -> bool {
    &&& f == (UsageLocation {
        no: f.no,
        legal_purpose: f.legal_purpose,
        county: f.county,
        river_basin: f.river_basin,
        groundwater_body: f.groundwater_body,
        flood_area: f.flood_area,
        water_protection_area: f.water_protection_area,
        utm_easting: f.utm_easting,
        utm_northing: f.utm_northing,
        ..o
    })
    &&& f.no == kept_or(o.no, Some(row.usage_location_no))
    &&& o.legal_purpose is Some ==> f.legal_purpose == o.legal_purpose
    &&& o.legal_purpose is None ==> match row.legal_purpose {
        None => f.legal_purpose is None,
        Some(p) => match f.legal_purpose {
            Some((a, b)) => purpose_of(p@) == Some((a@, b@)),
            None => purpose_of(p@) is None,
        },
    }
    &&& f.county == kept_or(o.county, row.county)
    &&& f.river_basin == kept_or(o.river_basin, row.river_basin)
    &&& f.groundwater_body == kept_or(o.groundwater_body, row.groundwater_body)
    &&& f.flood_area == kept_or(o.flood_area, row.flood_area)
    &&& f.water_protection_area == kept_or(o.water_protection_area, row.water_protection_area)
    &&& f.utm_easting == nonzero(kept_or(o.utm_easting, row.utm_easting))
    &&& f.utm_northing == nonzero(kept_or(o.utm_northing, row.utm_northing))
}

/// A usage location that no row matches: only its zero coordinates become
/// absent.
pub open spec fn left_unfilled(o: UsageLocation, f: UsageLocation) -> bool {
    f == (UsageLocation { utm_easting: nonzero(o.utm_easting), utm_northing: nonzero(o.utm_northing), ..o })
}

/// Fills the absent fields of a usage location from its row.
fn fill_location(location: &mut UsageLocation, row: &CadenzaTableRowInner)
    ensures
        filled_from_row(*old(location), *row, *final(location)),
{
    if location.no.is_none() {
        location.no = Some(row.usage_location_no);
    }
    if location.legal_purpose.is_none() {
        location.legal_purpose = match &row.legal_purpose {
            Some(p) => parse_purpose(p.as_str()),
            None => None,
        };
    }
    fill(&mut location.county, &row.county);
    fill(&mut location.river_basin, &row.river_basin);
    fill(&mut location.groundwater_body, &row.groundwater_body);
    fill(&mut location.flood_area, &row.flood_area);
    fill(&mut location.water_protection_area, &row.water_protection_area);
    if location.utm_easting.is_none() {
        location.utm_easting = row.utm_easting;
    }
    if location.utm_northing.is_none() {
        location.utm_northing = row.utm_northing;
    }
    drop_zero_coordinates(location);
}

/// Zero coordinates, which the spreadsheet writes for missing ones, as absent.
fn drop_zero_coordinates(location: &mut UsageLocation)
    ensures
        *final(location) == (UsageLocation {
            utm_easting: match old(location).utm_easting { Some(e) => if e == 0 { None } else { Some(e) }, None => None },
            utm_northing: match old(location).utm_northing { Some(n) => if n == 0 { None } else { Some(n) }, None => None },
            ..*old(location)
        }),
{
    location.utm_easting = match location.utm_easting {
        Some(e) => zero_is_none(e),
        None => None,
    };
    location.utm_northing = match location.utm_northing {
        Some(n) => zero_is_none(n),
        None => None,
    };
}

/// Whether a row matches a usage location: by its name, or by both of
/// its coordinates.
pub open spec fn row_matches(l: UsageLocation, r: CadenzaTableRowInner) -> bool {
    name_matches(l, r) || coordinates_match(l, r)
}

/// Whether a row has the name of a usage location.
pub open spec fn name_matches(l: UsageLocation, r: CadenzaTableRowInner) -> bool {
    l.name is Some && opt_view(r.usage_location) == opt_view(l.name)
}

/// Whether a row has both coordinates of a usage location.
pub open spec fn coordinates_match(l: UsageLocation, r: CadenzaTableRowInner) -> bool {
    l.utm_easting is Some && r.utm_easting == l.utm_easting && l.utm_northing is Some && r.utm_northing == l.utm_northing
}

fn same_text(a: &Option<String>, b: &Option<String>) -> (r: bool)
    ensures
        r == (opt_view(*a) == opt_view(*b)),
{
    match (a, b) {
        (Some(x), Some(y)) => crate::text::str_eq(x.as_str(), y.as_str()),
        (None, None) => true,
        _ => false,
    }
}

/// The position of the first of the remaining rows with the name of a
/// usage location, or -1.
pub open spec fn name_pick(l: UsageLocation, rows: Seq<CadenzaTableRowInner>, rem: Seq<usize>) -> int
    decreases rem.len(),
{
    if rem.len() == 0 {
        -1
    } else if name_matches(l, rows[rem[0] as int]) {
        0
    } else {
        let k = name_pick(l, rows, rem.drop_first());
        if k < 0 {
            -1
        } else {
            k + 1
        }
    }
}

/// The position of the first of the remaining rows with both coordinates
/// of a usage location, or -1.
pub open spec fn coordinate_pick(l: UsageLocation, rows: Seq<CadenzaTableRowInner>, rem: Seq<usize>) -> int
    decreases rem.len(),
{
    if rem.len() == 0 {
        -1
    } else if coordinates_match(l, rows[rem[0] as int]) {
        0
    } else {
        let k = coordinate_pick(l, rows, rem.drop_first());
        if k < 0 {
            -1
        } else {
            k + 1
        }
    }
}

/// The position of the remaining row for a usage location: the first one
/// with its name, else the first one with both its coordinates; -1 where
/// there is none.
pub open spec fn pick(l: UsageLocation, rows: Seq<CadenzaTableRowInner>, rem: Seq<usize>) -> int {
    if name_pick(l, rows, rem) >= 0 {
        name_pick(l, rows, rem)
    } else {
        coordinate_pick(l, rows, rem)
    }
}

/// The remaining rows after the usage locations `locs` took theirs.
pub open spec fn rem_after(locs: Seq<UsageLocation>, rows: Seq<CadenzaTableRowInner>, rem: Seq<usize>) -> Seq<usize>
    decreases locs.len(),
{
    if locs.len() == 0 {
        rem
    } else {
        let prev = rem_after(locs.drop_last(), rows, rem);
        let k = pick(locs.last(), rows, prev);
        if k >= 0 {
            prev.remove(k)
        } else {
            prev
        }
    }
}

/// How many of the usage locations `locs` find no row.
pub open spec fn unmatched(locs: Seq<UsageLocation>, rows: Seq<CadenzaTableRowInner>, rem: Seq<usize>) -> nat
    decreases locs.len(),
{
    if locs.len() == 0 {
        0
    } else {
        let prev = rem_after(locs.drop_last(), rows, rem);
        unmatched(locs.drop_last(), rows, rem) + if pick(locs.last(), rows, prev) >= 0 { 0nat } else { 1nat }
    }
}

/// What becomes of a usage location given the remaining rows.
pub open spec fn location_outcome(o: UsageLocation, rows: Seq<CadenzaTableRowInner>, rem: Seq<usize>, f: UsageLocation) -> bool {
    let k = pick(o, rows, rem);
    if k >= 0 {
        filled_from_row(o, rows[rem[k] as int], f)
    } else {
        left_unfilled(o, f)
    }
}

/// `n` warnings of a usage location without a row.
pub open spec fn not_found(no: WaterRightNo, n: nat) -> Seq<Warning> {
    Seq::new(n, |i: int| Warning::CouldNotFindUsageLocation { water_right_no: no })
}

proof fn lemma_pick_first(
    l: UsageLocation,
    rows: Seq<CadenzaTableRowInner>,
    rem: Seq<usize>,
    k: int,
    by_name: bool,
)
    requires
        0 <= k <= rem.len(),
        by_name ==> forall|m: int| 0 <= m < k ==> !name_matches(l, #[trigger] rows[rem[m] as int]),
        !by_name ==> forall|m: int| 0 <= m < k ==> !coordinates_match(l, #[trigger] rows[rem[m] as int]),
    ensures
        by_name && k < rem.len() && name_matches(l, rows[rem[k] as int]) ==> name_pick(l, rows, rem) == k,
        by_name && k == rem.len() ==> name_pick(l, rows, rem) == -1,
        !by_name && k < rem.len() && coordinates_match(l, rows[rem[k] as int]) ==> coordinate_pick(l, rows, rem) == k,
        !by_name && k == rem.len() ==> coordinate_pick(l, rows, rem) == -1,
    decreases k,
{
    if k > 0 {
        let d = rem.drop_first();
        assert forall|m: int| 0 <= m < k - 1 implies d[m] == rem[m + 1] by {}
        if by_name {
            assert forall|m: int| 0 <= m < k - 1 implies !name_matches(l, #[trigger] rows[d[m] as int]) by {
                assert(d[m] == rem[m + 1]);
            }
        } else {
            assert forall|m: int| 0 <= m < k - 1 implies !coordinates_match(l, #[trigger] rows[d[m] as int]) by {
                assert(d[m] == rem[m + 1]);
            }
        }
        if k < rem.len() {
            assert(d[k - 1] == rem[k]);
        }
        lemma_pick_first(l, rows, d, k - 1, by_name);
        assert(rem[0] == rem[0]);
    }
}

proof fn lemma_pick_bound(l: UsageLocation, rows: Seq<CadenzaTableRowInner>, rem: Seq<usize>)
    ensures
        -1 <= name_pick(l, rows, rem) < rem.len(),
        -1 <= coordinate_pick(l, rows, rem) < rem.len(),
        -1 <= pick(l, rows, rem) < rem.len(),
    decreases rem.len(),
{
    if rem.len() > 0 {
        lemma_pick_bound(l, rows, rem.drop_first());
    }
}

/// The position in `remaining` of the row for a usage location: the first
/// one with its name, else the first one with both its coordinates.
fn find_row(location: &UsageLocation, rows: &Vec<CadenzaTableRowInner>, remaining: &Vec<usize>) -> (r: Option<usize>)
    requires
        forall|k: int| 0 <= k < remaining@.len() ==> remaining@[k] < rows@.len(),
    ensures
        pick(*location, rows@, remaining@) == match r {
            Some(k) => k as int,
            None => -1,
        },
{
    let mut k: usize = 0;
    while k < remaining.len()
        invariant
            k <= remaining@.len(),
            forall|m: int| 0 <= m < remaining@.len() ==> remaining@[m] < rows@.len(),
            forall|m: int| 0 <= m < k ==> !name_matches(*location, #[trigger] rows@[remaining@[m] as int]),
        decreases remaining@.len() - k,
    {
        if location.name.is_some() && same_text(&rows[remaining[k]].usage_location, &location.name) {
            proof {
                lemma_pick_first(*location, rows@, remaining@, k as int, true);
            }
            return Some(k);
        }
        k = k + 1;
    }
    proof {
        lemma_pick_first(*location, rows@, remaining@, k as int, true);
    }
    let mut k: usize = 0;
    while k < remaining.len()
        invariant
            k <= remaining@.len(),
            name_pick(*location, rows@, remaining@) == -1,
            forall|m: int| 0 <= m < remaining@.len() ==> remaining@[m] < rows@.len(),
            forall|m: int| 0 <= m < k ==> !coordinates_match(*location, #[trigger] rows@[remaining@[m] as int]),
        decreases remaining@.len() - k,
    {
        let row = &rows[remaining[k]];
        if location.utm_easting.is_some() && row.utm_easting == location.utm_easting && location.utm_northing.is_some()
            && row.utm_northing == location.utm_northing {
            proof {
                lemma_pick_first(*location, rows@, remaining@, k as int, false);
            }
            return Some(k);
        }
        k = k + 1;
    }
    proof {
        lemma_pick_first(*location, rows@, remaining@, k as int, false);
    }
    None
}

/// Fills the usage locations of one department, each from the first
/// remaining row that matches it; a row serves one location only.
fn fill_department(
    department: &mut LegalDepartment,
    rows: &Vec<CadenzaTableRowInner>,
    remaining: &mut Vec<usize>,
    no: WaterRightNo,
    warnings: &mut Vec<Warning>,
)
    requires
        forall|k: int| 0 <= k < old(remaining)@.len() ==> old(remaining)@[k] < rows@.len(),
    ensures
        forall|k: int| 0 <= k < final(remaining)@.len() ==> final(remaining)@[k] < rows@.len(),
        final(remaining)@ == rem_after(old(department).usage_locations@, rows@, old(remaining)@),
        final(department).abbreviation == old(department).abbreviation,
        final(department).description == old(department).description,
        final(department).usage_locations@.len() == old(department).usage_locations@.len(),
        forall|j: int| 0 <= j < final(department).usage_locations@.len() ==> location_outcome(
            old(department).usage_locations@[j],
            rows@,
            rem_after(old(department).usage_locations@.subrange(0, j), rows@, old(remaining)@),
            #[trigger] final(department).usage_locations@[j],
        ),
        final(warnings)@ == old(warnings)@ + not_found(no, unmatched(old(department).usage_locations@, rows@, old(remaining)@)),
{
    let ghost olds = department.usage_locations@;
    let ghost rem0 = remaining@;
    let n = department.usage_locations.len();
    let mut j: usize = 0;
    assert(olds.subrange(0, 0) =~= Seq::<UsageLocation>::empty());
    assert(old(warnings)@ + not_found(no, 0) =~= old(warnings)@);
    while j < n
        invariant
            j <= n == department.usage_locations@.len(),
            n == olds.len(),
            olds == old(department).usage_locations@,
            rem0 == old(remaining)@,
            department.abbreviation == old(department).abbreviation,
            department.description == old(department).description,
            forall|k: int| 0 <= k < remaining@.len() ==> remaining@[k] < rows@.len(),
            remaining@ == rem_after(olds.subrange(0, j as int), rows@, rem0),
            forall|m: int| 0 <= m < j ==> location_outcome(
                olds[m],
                rows@,
                rem_after(olds.subrange(0, m), rows@, rem0),
                #[trigger] department.usage_locations@[m],
            ),
            forall|m: int| j <= m < n ==> #[trigger] department.usage_locations@[m] == olds[m],
            warnings@ == old(warnings)@ + not_found(no, unmatched(olds.subrange(0, j as int), rows@, rem0)),
        decreases n - j,
    {
        let ghost before = department.usage_locations@;
        let ghost rem_j = remaining@;
        let ghost pre = olds.subrange(0, j as int);
        let ghost now = olds.subrange(0, j + 1);
        assert(now.drop_last() =~= pre);
        assert(now.last() == olds[j as int]);
        let mut location = UsageLocation::new();
        std::mem::swap(&mut department.usage_locations[j], &mut location);
        assert(location == olds[j as int]);
        proof {
            lemma_pick_bound(location, rows@, rem_j);
        }
        match find_row(&location, rows, remaining) {
            Some(k) => {
                let r = remaining.remove(k);
                assert(r == rem_j[k as int]);
                fill_location(&mut location, &rows[r]);
                assert(remaining@ == rem_after(now, rows@, rem0));
                assert(unmatched(now, rows@, rem0) == unmatched(pre, rows@, rem0));
            },
            None => {
                warnings.push(Warning::CouldNotFindUsageLocation { water_right_no: no });
                drop_zero_coordinates(&mut location);
                assert(warnings@ =~= old(warnings)@ + not_found(no, unmatched(now, rows@, rem0)));
            },
        }
        department.usage_locations[j] = location;
        assert forall|m: int| 0 <= m < j + 1 implies location_outcome(
            olds[m],
            rows@,
            rem_after(olds.subrange(0, m), rows@, rem0),
            #[trigger] department.usage_locations@[m],
        ) by {
            if m < j {
                assert(department.usage_locations@[m] == before[m]);
            } else {
                assert(olds.subrange(0, m) == pre);
            }
        }
        j = j + 1;
    }
    assert(olds.subrange(0, n as int) =~= olds);
}

/// The rows among the first `n` whose usage-location number differs from
/// that of row `i`.
pub open spec fn other_locations(rows: Seq<CadenzaTableRowInner>, rem: Seq<usize>, i: int) -> Seq<usize> {
    rem.filter(|k: usize| rows[k as int].usage_location_no != rows[i].usage_location_no)
}

/// The indices of the first `n` rows that belong to water right `no`, in
/// row order; of rows with the same usage-location number only the last
/// one counts.
pub open spec fn relevant_upto(rows: Seq<CadenzaTableRowInner>, no: WaterRightNo, n: nat) -> Seq<usize>
    decreases n,
{
    if n == 0 {
        Seq::empty()
    } else {
        let prev = relevant_upto(rows, no, (n - 1) as nat);
        let i = n - 1;
        if rows[i].no == no {
            other_locations(rows, prev, i).push(i as usize)
        } else {
            prev
        }
    }
}

proof fn lemma_relevant_bound(rows: Seq<CadenzaTableRowInner>, no: WaterRightNo, n: nat)
    requires
        n <= rows.len(),
        n <= usize::MAX,
    ensures
        forall|k: int| 0 <= k < relevant_upto(rows, no, n).len() ==> (#[trigger] relevant_upto(rows, no, n)[k]) < n,
    decreases n,
{
    reveal(Seq::filter);
    if n > 0 {
        lemma_relevant_bound(rows, no, (n - 1) as nat);
        let prev = relevant_upto(rows, no, (n - 1) as nat);
        let i = n - 1;
        if rows[i].no == no {
            let f = other_locations(rows, prev, i);
            assert forall|k: int| 0 <= k < f.len() implies f[k] < n by {
                assert(f.contains(f[k]));
                prev.lemma_filter_contains_rev(|k: usize| rows[k as int].usage_location_no != rows[i].usage_location_no, f[k]);
                let m = choose|m: int| 0 <= m < prev.len() && prev[m] == f[k];
                assert(prev[m] < n - 1);
            }
            assert forall|k: int| 0 <= k < relevant_upto(rows, no, n).len() implies (#[trigger] relevant_upto(rows, no, n)[k]) < n by {
                if k < f.len() {
                    assert(relevant_upto(rows, no, n)[k] == f[k]);
                }
            }
        }
    }
}

/// The indices of the rows of water right `no`; of rows with the same
/// usage-location number only the last one counts.
fn relevant_rows(rows: &Vec<CadenzaTableRowInner>, no: WaterRightNo) -> (r: Vec<usize>)
    ensures
        r@ == relevant_upto(rows@, no, rows@.len() as nat),
        forall|k: int| 0 <= k < r@.len() ==> r@[k] < rows@.len(),
{
    let mut remaining: Vec<usize> = Vec::new();
    let mut i: usize = 0;
    while i < rows.len()
        invariant
            i <= rows@.len(),
            remaining@ == relevant_upto(rows@, no, i as nat),
        decreases rows@.len() - i,
    {
        proof {
            lemma_relevant_bound(rows@, no, i as nat);
        }
        if rows[i].no == no {
            let mut kept: Vec<usize> = Vec::new();
            let mut k: usize = 0;
            while k < remaining.len()
                invariant
                    i < rows@.len(),
                    k <= remaining@.len(),
                    forall|m: int| 0 <= m < remaining@.len() ==> remaining@[m] < rows@.len(),
                    kept@ == other_locations(rows@, remaining@.subrange(0, k as int), i as int),
                decreases remaining@.len() - k,
            {
                let ghost prefix = remaining@.subrange(0, k + 1);
                proof {
                    reveal(Seq::filter);
                    assert(prefix.drop_last() =~= remaining@.subrange(0, k as int));
                    assert(prefix.last() == remaining@[k as int]);
                }
                if rows[remaining[k]].usage_location_no != rows[i].usage_location_no {
                    kept.push(remaining[k]);
                }
                k = k + 1;
            }
            assert(remaining@.subrange(0, remaining@.len() as int) =~= remaining@);
            kept.push(i);
            remaining = kept;
        }
        i = i + 1;
    }
    proof {
        lemma_relevant_bound(rows@, no, rows@.len() as nat);
    }
    remaining
}

/// What becomes of a department given the remaining rows: its usage
/// locations take their rows one after another.
pub open spec fn department_outcome(od: LegalDepartment, fd: LegalDepartment, rows: Seq<CadenzaTableRowInner>, rem: Seq<usize>) -> bool {
    &&& fd.abbreviation == od.abbreviation
    &&& fd.description == od.description
    &&& fd.usage_locations@.len() == od.usage_locations@.len()
    &&& forall|j: int| 0 <= j < fd.usage_locations@.len() ==> location_outcome(
        od.usage_locations@[j],
        rows,
        rem_after(od.usage_locations@.subrange(0, j), rows, rem),
        #[trigger] fd.usage_locations@[j],
    )
}

/// The remaining rows after the departments `ds` took theirs.
pub open spec fn rem_after_departments(ds: Seq<LegalDepartment>, rows: Seq<CadenzaTableRowInner>, rem: Seq<usize>) -> Seq<usize>
    decreases ds.len(),
{
    if ds.len() == 0 {
        rem
    } else {
        rem_after(ds.last().usage_locations@, rows, rem_after_departments(ds.drop_last(), rows, rem))
    }
}

/// How many usage locations of the departments `ds` find no row.
pub open spec fn unmatched_departments(ds: Seq<LegalDepartment>, rows: Seq<CadenzaTableRowInner>, rem: Seq<usize>) -> nat
    decreases ds.len(),
{
    if ds.len() == 0 {
        0
    } else {
        unmatched_departments(ds.drop_last(), rows, rem)
            + unmatched(ds.last().usage_locations@, rows, rem_after_departments(ds.drop_last(), rows, rem))
    }
}

/// Fills the absent fields of a water right from the spreadsheet rows of
/// its number. Each field of the right takes the first value the rows
/// give; each usage location takes the fields of the first remaining row
/// with its name, else with both its coordinates, and that row is then
/// used up; zero coordinates count as absent. Gives whether any row
/// belongs to the right, a warning for each usage location without a row,
/// and one for the rows that no usage location used.
pub fn enrich(water_right: &mut WaterRight, rows: &Vec<CadenzaTableRowInner>) -> (r: (bool, Vec<Warning>))
    ensures
        r.0 == exists|i: int| 0 <= i < rows@.len() && (#[trigger] rows@[i]).no == old(water_right).no,
        ({
            let o = *old(water_right);
            let f = *final(water_right);
            let rs = rows@;
            &&& f.holder == filled(o.holder, rs, o.no, |x: CadenzaTableRowInner| x.rights_holder)
            &&& f.valid_until == filled(o.valid_until, rs, o.no, |x: CadenzaTableRowInner| x.valid_until)
            &&& f.status == filled(o.status, rs, o.no, |x: CadenzaTableRowInner| x.status)
            &&& f.valid_from == filled(o.valid_from, rs, o.no, |x: CadenzaTableRowInner| x.valid_from)
            &&& f.legal_title == filled(o.legal_title, rs, o.no, |x: CadenzaTableRowInner| x.legal_title)
            &&& f.water_authority == filled(o.water_authority, rs, o.no, |x: CadenzaTableRowInner| x.water_authority)
            &&& f.granting_authority == filled(o.granting_authority, rs, o.no, |x: CadenzaTableRowInner| x.granting_authority)
            &&& f.last_change == filled(o.last_change, rs, o.no, |x: CadenzaTableRowInner| x.date_of_change)
            &&& f.file_reference == filled(o.file_reference, rs, o.no, |x: CadenzaTableRowInner| x.file_reference)
            &&& f.external_identifier == filled(o.external_identifier, rs, o.no, |x: CadenzaTableRowInner| x.external_identifier)
            &&& f.address == filled(o.address, rs, o.no, |x: CadenzaTableRowInner| x.address)
            &&& f.no == o.no
            &&& f.registering_authority == o.registering_authority
            &&& f.initially_granted == o.initially_granted
            &&& f.subject == o.subject
            &&& f.annotation == o.annotation
            &&& f.legal_departments@.len() == o.legal_departments@.len()
            &&& forall|d: int| 0 <= d < f.legal_departments@.len() ==> department_outcome(
                o.legal_departments@[d],
                #[trigger] f.legal_departments@[d],
                rs,
                rem_after_departments(o.legal_departments@.subrange(0, d), rs, relevant_upto(rs, o.no, rs.len() as nat)),
            )
        }),
        ({
            let o = *old(water_right);
            let rs = rows@;
            let rem0 = relevant_upto(rs, o.no, rs.len() as nat);
            let left = rem_after_departments(o.legal_departments@, rs, rem0);
            let c = unmatched_departments(o.legal_departments@, rs, rem0);
            &&& r.1@.len() == c + if left.len() > 0 { 1int } else { 0 }
            &&& r.1@.subrange(0, c as int) == not_found(o.no, c)
            &&& left.len() > 0 ==> (r.1@.last() matches Warning::MissingLocations { water_right_no, missing_locations }
                && water_right_no == o.no
                && missing_locations@ == left.map_values(|k: usize| rs[k as int].usage_location_no))
        }),
{
    let no = water_right.no;
    let mut enriched = false;
    let mut i: usize = 0;
    let ghost o = *water_right;
    while i < rows.len()
        invariant
            i <= rows@.len(),
            no == o.no,
            o == *old(water_right),
            enriched == exists|k: int| 0 <= k < i && (#[trigger] rows@[k]).no == no,
            ({
                let f = *water_right;
                let rs = rows@.subrange(0, i as int);
                &&& f.holder == filled(o.holder, rs, no, |x: CadenzaTableRowInner| x.rights_holder)
                &&& f.valid_until == filled(o.valid_until, rs, no, |x: CadenzaTableRowInner| x.valid_until)
                &&& f.status == filled(o.status, rs, no, |x: CadenzaTableRowInner| x.status)
                &&& f.valid_from == filled(o.valid_from, rs, no, |x: CadenzaTableRowInner| x.valid_from)
                &&& f.legal_title == filled(o.legal_title, rs, no, |x: CadenzaTableRowInner| x.legal_title)
                &&& f.water_authority == filled(o.water_authority, rs, no, |x: CadenzaTableRowInner| x.water_authority)
                &&& f.granting_authority == filled(o.granting_authority, rs, no, |x: CadenzaTableRowInner| x.granting_authority)
                &&& f.last_change == filled(o.last_change, rs, no, |x: CadenzaTableRowInner| x.date_of_change)
                &&& f.file_reference == filled(o.file_reference, rs, no, |x: CadenzaTableRowInner| x.file_reference)
                &&& f.external_identifier == filled(o.external_identifier, rs, no, |x: CadenzaTableRowInner| x.external_identifier)
                &&& f.address == filled(o.address, rs, no, |x: CadenzaTableRowInner| x.address)
                &&& f == (WaterRight {
                    holder: f.holder,
                    valid_until: f.valid_until,
                    status: f.status,
                    valid_from: f.valid_from,
                    legal_title: f.legal_title,
                    water_authority: f.water_authority,
                    granting_authority: f.granting_authority,
                    last_change: f.last_change,
                    file_reference: f.file_reference,
                    external_identifier: f.external_identifier,
                    address: f.address,
                    ..o
                })
            }),
        decreases rows@.len() - i,
    {
        let ghost pre = rows@.subrange(0, i as int);
        let ghost now = rows@.subrange(0, i + 1);
        assert(now.drop_last() =~= pre);
        let row = &rows[i];
        if row.no == no {
            enriched = true;
            fill(&mut water_right.holder, &row.rights_holder);
            fill(&mut water_right.valid_until, &row.valid_until);
            fill(&mut water_right.status, &row.status);
            fill(&mut water_right.valid_from, &row.valid_from);
            fill(&mut water_right.legal_title, &row.legal_title);
            fill(&mut water_right.water_authority, &row.water_authority);
            fill(&mut water_right.granting_authority, &row.granting_authority);
            fill(&mut water_right.last_change, &row.date_of_change);
            fill(&mut water_right.file_reference, &row.file_reference);
            fill(&mut water_right.external_identifier, &row.external_identifier);
            fill(&mut water_right.address, &row.address);
        }
        i = i + 1;
    }
    assert(rows@.subrange(0, rows@.len() as int) =~= rows@);

    let mut remaining = relevant_rows(rows, no);
    let ghost rem0 = remaining@;
    let mut warnings: Vec<Warning> = Vec::new();
    assert(water_right.legal_departments@.subrange(0, 0) =~= Seq::<LegalDepartment>::empty());
    assert(warnings@ =~= not_found(no, 0));
    let ghost mid = *water_right;
    let n = water_right.legal_departments.len();
    let mut d: usize = 0;
    while d < n
        invariant
            d <= n == water_right.legal_departments@.len(),
            n == mid.legal_departments@.len(),
            mid == (WaterRight { legal_departments: mid.legal_departments, ..mid }),
            *water_right == (WaterRight { legal_departments: water_right.legal_departments, ..mid }),
            forall|k: int| 0 <= k < remaining@.len() ==> remaining@[k] < rows@.len(),
            rem0 == relevant_upto(rows@, no, rows@.len() as nat),
            forall|m: int| d <= m < n ==> #[trigger] water_right.legal_departments@[m] == mid.legal_departments@[m],
            forall|m: int| 0 <= m < d ==> department_outcome(
                mid.legal_departments@[m],
                #[trigger] water_right.legal_departments@[m],
                rows@,
                rem_after_departments(mid.legal_departments@.subrange(0, m), rows@, rem0),
            ),
            remaining@ == rem_after_departments(mid.legal_departments@.subrange(0, d as int), rows@, rem0),
            warnings@ == not_found(no, unmatched_departments(mid.legal_departments@.subrange(0, d as int), rows@, rem0)),
        decreases n - d,
    {
        let ghost before = water_right.legal_departments@;
        let ghost rem_d = remaining@;
        let ghost w_d = warnings@;
        let ghost pre = mid.legal_departments@.subrange(0, d as int);
        let ghost now = mid.legal_departments@.subrange(0, d + 1);
        assert(now.drop_last() =~= pre);
        let mut department = LegalDepartment::new(crate::model::LegalDepartmentAbbreviation::A, String::new());
        std::mem::swap(&mut water_right.legal_departments[d], &mut department);
        assert(department == before[d as int]);
        assert(now.last() == department);
        fill_department(&mut department, rows, &mut remaining, no, &mut warnings);
        water_right.legal_departments[d] = department;
        assert(warnings@ =~= not_found(no, unmatched_departments(now, rows@, rem0)));
        assert forall|m: int| 0 <= m < d + 1 implies department_outcome(
            mid.legal_departments@[m],
            #[trigger] water_right.legal_departments@[m],
            rows@,
            rem_after_departments(mid.legal_departments@.subrange(0, m), rows@, rem0),
        ) by {
            if m < d {
                assert(water_right.legal_departments@[m] == before[m]);
            } else {
                assert(mid.legal_departments@.subrange(0, m) == pre);
            }
        }
        d = d + 1;
    }

    assert(mid.legal_departments@.subrange(0, n as int) =~= mid.legal_departments@);
    let ghost c_warnings = warnings@;
    if remaining.len() > 0 {
        let mut missing: Vec<u64> = Vec::new();
        let mut k: usize = 0;
        while k < remaining.len()
            invariant
                k <= remaining@.len(),
                forall|m: int| 0 <= m < remaining@.len() ==> remaining@[m] < rows@.len(),
                missing@ == remaining@.subrange(0, k as int).map_values(|x: usize| rows@[x as int].usage_location_no),
            decreases remaining@.len() - k,
        {
            missing.push(rows[remaining[k]].usage_location_no);
            k = k + 1;
            assert(missing@ =~= remaining@.subrange(0, k as int).map_values(|x: usize| rows@[x as int].usage_location_no));
        }
        assert(remaining@.subrange(0, remaining@.len() as int) =~= remaining@);
        warnings.push(Warning::MissingLocations { water_right_no: no, missing_locations: missing });
        assert(warnings@.subrange(0, c_warnings.len() as int) =~= c_warnings);
    } else {
        assert(warnings@.subrange(0, c_warnings.len() as int) =~= c_warnings);
    }
    (enriched, warnings)
}

} // verus!
