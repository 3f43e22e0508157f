//! Field parsers that fill the record model from the segmented pairs.
use vstd::prelude::*;

use crate::fields::{
    allowance_parts, department_parts, header_of, land_record_of, parse_header, parse_land_record,
    parse_purpose, purpose_of, remove_char, replace_char, replaced, split_allowance,
    split_department_label, without_char,
};
use crate::helper_types::{
    inserted, parse_rate, rate_of, EntryView, OrFallback, Quantity, SingleOrPair,
};
use crate::model::{
    abbreviation_of, first_of, LandRecord, LegalDepartment, LegalDepartmentAbbreviation,
    ParseLegalDepartmentError, UsageLocation, WaterRight,
};
use crate::numbers::{decimal_of, parse_decimal, parse_u64, u64_of, Decimal};
use crate::text::{chars_of, push_all, str_eq, string_of};
use crate::util::{opt_view, sanitize, sanitized};

verus! {

/// Why the pairs of a report could not be read.
#[derive(Debug)]
pub enum ParseError {
    /// A root entry with an unknown key, or without the value it needs.
    InvalidRootEntry(String),
    /// A usage-location entry with an unknown key, or with values of the
    /// wrong number.
    InvalidLocationEntry(String),
    /// A usage-location header of another shape.
    InvalidLocationHeader(String),
    /// A text that should be a number.
    InvalidNumber(String),
    /// A department label that names no department.
    UnknownDepartment(ParseLegalDepartmentError),
    /// A department label without a description.
    MissingDescription(String),
    /// An allowance value without kind, value and unit.
    IncompleteAllowance(String),
    /// An allowance of a kind that the department does not have.
    UnknownAllowanceKind(String),
    /// A text block with text and font but no position.
    MissingPosition,
}

/// The first of a list of values, if any.
pub open spec fn first_view(values: Seq<String>) -> Option<Seq<char>> {
    if values.len() > 0 {
        Some(values[0]@)
    } else {
        None
    }
}

/// The second of a list of values, if any.
pub open spec fn second_view(values: Seq<String>) -> Option<Seq<char>> {
    if values.len() > 1 {
        Some(values[1]@)
    } else {
        None
    }
}

/// The value at `i`, made plain.
fn plain_value(values: &Vec<String>, i: usize) -> (r: Option<String>)
    ensures
        opt_view(r) == sanitized(if i < values@.len() { Some(values@[i as int]@) } else { None }),
{
    if i < values.len() {
        sanitize(Some(values[i].clone()))
    } else {
        sanitize(None)
    }
}

/// Reads an unsigned integer, or names the text that is none.
fn read_u64(text: &String) -> (r: Result<u64, ParseError>)
    ensures
        match u64_of(text@) {
            Some(n) => r == Ok::<u64, ParseError>(n),
            None => r matches Err(ParseError::InvalidNumber(t)) && t@ == text@,
        },
{
    let v = chars_of(text.as_str());
    match parse_u64(&v) {
        Some(n) => Ok(n),
        None => Err(ParseError::InvalidNumber(text.clone())),
    }
}

/// Reads an unsigned integer after removing its spaces.
fn read_u64_spaced(text: &String) -> (r: Result<u64, ParseError>)
    ensures
        match u64_of(without_char(text@, ' ')) {
            Some(n) => r == Ok::<u64, ParseError>(n),
            None => r matches Err(ParseError::InvalidNumber(t)) && t@ == without_char(text@, ' '),
        },
{
    let v = remove_char(&chars_of(text.as_str()), ' ');
    match parse_u64(&v) {
        Some(n) => Ok(n),
        None => Err(ParseError::InvalidNumber(string_of(&v))),
    }
}

/// A code with a name: nothing where both are absent.
fn read_numbered(key: &String, first: Option<String>, second: Option<String>) -> (r: Result<Option<(u64, String)>, ParseError>)
    ensures
        match (opt_view(first), opt_view(second)) {
            (None, None) => r matches Ok(None),
            (Some(n), Some(s)) => match u64_of(n) {
                Some(x) => r matches Ok(Some((y, t))) && y == x && t@ == s,
                None => r matches Err(ParseError::InvalidNumber(t)) && t@ == n,
            },
            _ => r matches Err(ParseError::InvalidLocationEntry(k)) && k@ == key@,
        },
{
    match (first, second) {
        (None, None) => Ok(None),
        (Some(n), Some(s)) => match read_u64(&n) {
            Ok(x) => Ok(Some((x, s))),
            Err(e) => Err(e),
        },
        _ => Err(ParseError::InvalidLocationEntry(key.clone())),
    }
}

/// A code, alone or with a name; spaces in the code are ignored; nothing
/// where both are absent.
fn read_single_or_pair(key: &String, first: Option<String>, second: Option<String>) -> (r: Result<Option<SingleOrPair<u64, String>>, ParseError>)
    ensures
        match (opt_view(first), opt_view(second)) {
            (None, None) => r matches Ok(None),
            (Some(n), s) => match u64_of(without_char(n, ' ')) {
                Some(x) => match s {
                    None => r matches Ok(Some(SingleOrPair::Single(y))) && y == x,
                    Some(s) => r matches Ok(Some(SingleOrPair::Pair(y, t))) && y == x && t@ == s,
                },
                None => r matches Err(ParseError::InvalidNumber(t)) && t@ == without_char(n, ' '),
            },
            (None, Some(_)) => r matches Err(ParseError::InvalidLocationEntry(k)) && k@ == key@,
        },
{
    match (first, second) {
        (None, None) => Ok(None),
        (Some(n), None) => match read_u64_spaced(&n) {
            Ok(x) => Ok(Some(SingleOrPair::Single(x))),
            Err(e) => Err(e),
        },
        (Some(n), Some(s)) => match read_u64_spaced(&n) {
            Ok(x) => Ok(Some(SingleOrPair::Pair(x, s))),
            Err(e) => Err(e),
        },
        (None, Some(_)) => Err(ParseError::InvalidLocationEntry(key.clone())),
    }
}

/// The land record of a value: spaces are removed; where the rest is no
/// district and field number it is kept as it is.
pub open spec fn land_record_value(v: Seq<char>) -> Result<(Seq<char>, u32), Seq<char>> {
    let t = without_char(v, ' ');
    match land_record_of(t) {
        Some(p) => Ok(p),
        None => Err(t),
    }
}

/// The value of an optional land record.
pub open spec fn land_view(l: OrFallback<LandRecord>) -> Result<(Seq<char>, u32), Seq<char>> {
    match l {
        OrFallback::Expected(r) => Ok((r.district@, r.field)),
        OrFallback::Fallback(s) => Err(s@),
    }
}

/// Reads a land record; a value of another shape falls back to its text
/// without spaces.
pub fn read_land_record(value: &str) -> (r: OrFallback<LandRecord>)
    ensures
        land_view(r) == land_record_value(value@),
{
    let v = remove_char(&chars_of(value), ' ');
    match parse_land_record(&v) {
        Some((district, field)) => OrFallback::Expected(LandRecord { district, field }),
        None => OrFallback::Fallback(string_of(&v)),
    }
}

/// A fallback land record gives back the text it was read from, without
/// its spaces; a text without spaces comes back unchanged.
pub proof fn lemma_land_record_fallback_round_trip(s: Seq<char>)
    requires
        land_record_of(without_char(s, ' ')) is None,
    ensures
        land_record_value(s) == Err::<(Seq<char>, u32), Seq<char>>(without_char(s, ' ')),
        (forall|i: int| 0 <= i < s.len() ==> s[i] != ' ') ==> land_record_value(s) == Err::<(Seq<char>, u32), Seq<char>>(s),
{
    if forall|i: int| 0 <= i < s.len() ==> s[i] != ' ' {
        lemma_without_absent(s, ' ');
    }
}

proof fn lemma_without_absent(s: Seq<char>, c: char)
    requires
        forall|i: int| 0 <= i < s.len() ==> s[i] != c,
    ensures
        without_char(s, c) == s,
    decreases s.len(),
{
    if s.len() > 0 {
        assert forall|i: int| 0 <= i < s.drop_last().len() implies s.drop_last()[i] != c by {
            assert(s.drop_last()[i] == s[i]);
        }
        lemma_without_absent(s.drop_last(), c);
        assert(s.drop_last().push(s.last()) =~= s);
    }
}

/// Where an allowance value goes, by its kind.
#[derive(Debug, Clone, Copy, PartialEq, Eq, Structural)]
pub enum AllowanceKind {
    Withdrawal,
    Pumping,
    Injection,
    DamDefault,
    DamMax,
    DamSteady,
    WasteWater,
    Irrigation,
    RainSupplement,
    Discharge,
    Other,
}

/// The kind of an allowance, without a colon at its end.
pub open spec fn kind_label(kind: Seq<char>) -> Seq<char> {
    if kind.len() > 0 && kind.last() == ':' {
        kind.drop_last()
    } else {
        kind
    }
}

/// Where an allowance of a kind goes.
pub open spec fn allowance_kind(label: Seq<char>) -> AllowanceKind {
    if label == "Entnahmemenge"@ {
        AllowanceKind::Withdrawal
    } else if label == "Förderleistung"@ {
        AllowanceKind::Pumping
    } else if label == "Einleitungsmenge"@ {
        AllowanceKind::Injection
    } else if label == "Stauziel, bezogen auf NN"@ {
        AllowanceKind::DamDefault
    } else if label == "Stauziel (Höchststau), bezogen auf NN"@ {
        AllowanceKind::DamMax
    } else if label == "Stauziel (Dauerstau), bezogen auf NN"@ {
        AllowanceKind::DamSteady
    } else if label == "Abwasservolumenstrom, Sekunde"@ || label == "Abwasservolumenstrom, RW, Sekunde"@
        || label == "Abwasservolumenstrom, Std."@ || label == "Abwasservolumenstrom, Tag"@
        || label == "Abwasservolumenstrom, Jahr"@ || label == "Abwasservolumenstrom, RW, Jahr"@ {
        AllowanceKind::WasteWater
    } else if label == "Beregnungsfläche"@ {
        AllowanceKind::Irrigation
    } else if label == "Zusatzregen"@ {
        AllowanceKind::RainSupplement
    } else if label == "Ableitungsmenge"@ {
        AllowanceKind::Discharge
    } else {
        AllowanceKind::Other
    }
}

fn classify_allowance(label: &str) -> (r: AllowanceKind)
    ensures
        r == allowance_kind(label@),
{
    if str_eq(label, "Entnahmemenge") {
        AllowanceKind::Withdrawal
    } else if str_eq(label, "Förderleistung") {
        AllowanceKind::Pumping
    } else if str_eq(label, "Einleitungsmenge") {
        AllowanceKind::Injection
    } else if str_eq(label, "Stauziel, bezogen auf NN") {
        AllowanceKind::DamDefault
    } else if str_eq(label, "Stauziel (Höchststau), bezogen auf NN") {
        AllowanceKind::DamMax
    } else if str_eq(label, "Stauziel (Dauerstau), bezogen auf NN") {
        AllowanceKind::DamSteady
    } else if str_eq(label, "Abwasservolumenstrom, Sekunde") || str_eq(label, "Abwasservolumenstrom, RW, Sekunde")
        || str_eq(label, "Abwasservolumenstrom, Std.") || str_eq(label, "Abwasservolumenstrom, Tag")
        || str_eq(label, "Abwasservolumenstrom, Jahr") || str_eq(label, "Abwasservolumenstrom, RW, Jahr") {
        AllowanceKind::WasteWater
    } else if str_eq(label, "Beregnungsfläche") {
        AllowanceKind::Irrigation
    } else if str_eq(label, "Zusatzregen") {
        AllowanceKind::RainSupplement
    } else if str_eq(label, "Ableitungsmenge") {
        AllowanceKind::Discharge
    } else {
        AllowanceKind::Other
    }
}

/// The entry that a rate text gives: the rate, or the text itself.
pub open spec fn rate_entry(text: Seq<char>) -> EntryView {
    match rate_of(text) {
        Some(r) => Ok(r),
        None => Err(text),
    }
}

/// Whether a department keeps allowances of other kinds as injection
/// limits.
pub open spec fn has_injection_limits(d: LegalDepartmentAbbreviation) -> bool {
    d == LegalDepartmentAbbreviation::B || d == LegalDepartmentAbbreviation::C || d == LegalDepartmentAbbreviation::F
}

/// Whether a quantity holds the given number and unit.
pub open spec fn quantity_is(q: Option<Quantity>, value: Decimal, unit: Seq<char>) -> bool {
    q matches Some(q) && q.value == value && q.unit@ == unit
}

/// Whether an allowance value can be read in a department.
pub open spec fn allowance_valid(v: Seq<char>, d: LegalDepartmentAbbreviation) -> bool {
    match allowance_parts(v) {
        None => false,
        Some((kind, amount, _)) => match allowance_kind(kind_label(kind)) {
            AllowanceKind::Withdrawal | AllowanceKind::Pumping | AllowanceKind::Injection | AllowanceKind::WasteWater
            | AllowanceKind::RainSupplement | AllowanceKind::Discharge => true,
            AllowanceKind::Other => has_injection_limits(d) && decimal_of(amount) is Some,
            _ => decimal_of(amount) is Some,
        },
    }
}

/// What reading an allowance value does to a usage location.
pub open spec fn allowance_read(v: Seq<char>, department: LegalDepartmentAbbreviation, o: UsageLocation, f: UsageLocation) -> bool {
    match allowance_parts(v) {
        None => false,
        Some((kind, amount, unit)) => {
            let label = kind_label(kind);
            let e = rate_entry(amount + " "@ + unit);
            let d = decimal_of(amount)->0;
            match allowance_kind(label) {
                AllowanceKind::Withdrawal => f.withdrawal_rates@ == inserted(o.withdrawal_rates@, e)
                    && f == (UsageLocation { withdrawal_rates: f.withdrawal_rates, ..o }),
                AllowanceKind::Pumping => f.pumping_rates@ == inserted(o.pumping_rates@, e)
                    && f == (UsageLocation { pumping_rates: f.pumping_rates, ..o }),
                AllowanceKind::Injection => f.injection_rates@ == inserted(o.injection_rates@, e)
                    && f == (UsageLocation { injection_rates: f.injection_rates, ..o }),
                AllowanceKind::WasteWater => f.waste_water_flow_volume@ == inserted(o.waste_water_flow_volume@, e)
                    && f == (UsageLocation { waste_water_flow_volume: f.waste_water_flow_volume, ..o }),
                AllowanceKind::RainSupplement => f.rain_supplement@ == inserted(o.rain_supplement@, e)
                    && f == (UsageLocation { rain_supplement: f.rain_supplement, ..o }),
                AllowanceKind::Discharge => f.fluid_discharge@ == inserted(o.fluid_discharge@, e)
                    && f == (UsageLocation { fluid_discharge: f.fluid_discharge, ..o }),
                AllowanceKind::Other => f.injection_limits@.len() == o.injection_limits@.len() + 1
                    && f.injection_limits@.drop_last() == o.injection_limits@
                    && f.injection_limits@.last().0@ == label
                    && quantity_is(Some(f.injection_limits@.last().1), d, unit)
                    && f == (UsageLocation { injection_limits: f.injection_limits, ..o }),
                AllowanceKind::Irrigation => quantity_is(f.irrigation_area, d, unit)
                    && f == (UsageLocation { irrigation_area: f.irrigation_area, ..o }),
                AllowanceKind::DamDefault => quantity_is(f.dam_target_levels.default, d, unit)
                    && f.dam_target_levels.steady == o.dam_target_levels.steady
                    && f.dam_target_levels.max == o.dam_target_levels.max
                    && f == (UsageLocation { dam_target_levels: f.dam_target_levels, ..o }),
                AllowanceKind::DamMax => quantity_is(f.dam_target_levels.max, d, unit)
                    && f.dam_target_levels.steady == o.dam_target_levels.steady
                    && f.dam_target_levels.default == o.dam_target_levels.default
                    && f == (UsageLocation { dam_target_levels: f.dam_target_levels, ..o }),
                AllowanceKind::DamSteady => quantity_is(f.dam_target_levels.steady, d, unit)
                    && f.dam_target_levels.default == o.dam_target_levels.default
                    && f.dam_target_levels.max == o.dam_target_levels.max
                    && f == (UsageLocation { dam_target_levels: f.dam_target_levels, ..o }),
            }
        },
    }
}

/// The error of an allowance value that cannot be read: it lacks a part,
/// its kind is unknown to the department, or its value is no number.
pub open spec fn allowance_error(v: Seq<char>, department: LegalDepartmentAbbreviation, e: ParseError) -> bool {
    match allowance_parts(v) {
        None => e matches ParseError::IncompleteAllowance(t) && t@ == v,
        Some((kind, amount, _)) => {
            let label = kind_label(kind);
            if allowance_kind(label) == AllowanceKind::Other && !has_injection_limits(department) {
                e matches ParseError::UnknownAllowanceKind(t) && t@ == label
            } else {
                e matches ParseError::InvalidNumber(t) && t@ == amount
            }
        },
    }
}

/// Reads an allowance value, `<kind> <value> <unit>`, into the usage
/// location: rates go into the record of their kind (a value and unit that
/// are no rate are kept as text), dam targets and the irrigation area are
/// quantities, and other kinds are injection limits in the departments B,
/// C and F.
#[verifier::rlimit(60)]
pub fn parse_allowance_value(value: &String, location: &mut UsageLocation, department: LegalDepartmentAbbreviation) -> (r: Result<(), ParseError>)
    requires
        old(location).wf(),
    ensures
        final(location).wf(),
        r is Ok <==> allowance_valid(value@, department),
        r is Ok ==> allowance_read(value@, department, *old(location), *final(location)),
        r matches Err(e) ==> allowance_error(value@, department, e),
{
    let (kind, amount, unit) = match split_allowance(value) {
        Some(parts) => parts,
        None => {
            return Err(ParseError::IncompleteAllowance(value.clone()));
        },
    };
    let kind_chars = chars_of(kind.as_str());
    let label = if kind_chars.len() > 0 && kind_chars[kind_chars.len() - 1] == ':' {
        let l = crate::text::string_of_range(&kind_chars, 0, kind_chars.len() - 1);
        assert(l@ =~= kind@.drop_last());
        l
    } else {
        kind
    };
    let mut text = amount.clone();
    text.push(' ');
    push_all(&mut text, unit.as_str());
    proof {
        reveal_strlit(" ");
        assert(text@ =~= amount@ + " "@ + unit@);
    }
    let entry = match parse_rate(text.as_str()) {
        Some(rate) => OrFallback::Expected(rate),
        None => OrFallback::Fallback(text),
    };
    match classify_allowance(label.as_str()) {
        AllowanceKind::Withdrawal => {
            location.withdrawal_rates.insert(entry);
            Ok(())
        },
        AllowanceKind::Pumping => {
            location.pumping_rates.insert(entry);
            Ok(())
        },
        AllowanceKind::Injection => {
            location.injection_rates.insert(entry);
            Ok(())
        },
        AllowanceKind::WasteWater => {
            location.waste_water_flow_volume.insert(entry);
            Ok(())
        },
        AllowanceKind::RainSupplement => {
            location.rain_supplement.insert(entry);
            Ok(())
        },
        AllowanceKind::Discharge => {
            location.fluid_discharge.insert(entry);
            Ok(())
        },
        kind_found => {
            if kind_found == AllowanceKind::Other
                && !(department == LegalDepartmentAbbreviation::B || department == LegalDepartmentAbbreviation::C
                || department == LegalDepartmentAbbreviation::F) {
                return Err(ParseError::UnknownAllowanceKind(label));
            }
            let number = match parse_decimal(&chars_of(amount.as_str())) {
                Some(d) => d,
                None => {
                    return Err(ParseError::InvalidNumber(amount));
                },
            };
            let quantity = Quantity { value: number, unit };
            match kind_found {
                AllowanceKind::Irrigation => {
                    location.irrigation_area = Some(quantity);
                },
                AllowanceKind::DamDefault => {
                    location.dam_target_levels.default = Some(quantity);
                },
                AllowanceKind::DamMax => {
                    location.dam_target_levels.max = Some(quantity);
                },
                AllowanceKind::DamSteady => {
                    location.dam_target_levels.steady = Some(quantity);
                },
                _ => {
                    let ghost before = location.injection_limits@;
                    location.injection_limits.push((label, quantity));
                    assert(location.injection_limits@.drop_last() =~= before);
                },
            }
            Ok(())
        },
    }
}

/// The field that a usage-location key fills.
#[derive(Debug, Clone, Copy, PartialEq, Eq, Structural)]
pub enum LocationKey {
    Serial,
    Name,
    LegalPurpose,
    Easting,
    MapExcerpt,
    Northing,
    MunicipalArea,
    LandRecord,
    MaintenanceAssociation,
    Plot,
    EuSurveyArea,
    WaterBody,
    CatchmentAreaCode,
    RegulationCitation,
    Allowance,
    Unknown,
}

/// The field of each key of a usage location.
pub open spec fn location_key(k: Seq<char>) -> LocationKey {
    if k == "Nutzungsort Lfd. Nr.:"@ {
        LocationKey::Serial
    } else if k == "Bezeichnung:"@ {
        LocationKey::Name
    } else if k == "Rechtszweck:"@ {
        LocationKey::LegalPurpose
    } else if k == "East und North:"@ {
        LocationKey::Easting
    } else if k == "Top. Karte 1:25.000:"@ {
        LocationKey::MapExcerpt
    } else if k == "(ETRS89/UTM 32N)"@ {
        LocationKey::Northing
    } else if k == "Gemeindegebiet:"@ {
        LocationKey::MunicipalArea
    } else if k == "Gemarkung, Flur:"@ {
        LocationKey::LandRecord
    } else if k == "Unterhaltungsverband:"@ {
        LocationKey::MaintenanceAssociation
    } else if k == "Flurstück:"@ {
        LocationKey::Plot
    } else if k == "EU-Bearbeitungsgebiet:"@ {
        LocationKey::EuSurveyArea
    } else if k == "Gewässer:"@ {
        LocationKey::WaterBody
    } else if k == "Einzugsgebietskennzahl:"@ {
        LocationKey::CatchmentAreaCode
    } else if k == "Verordnungszitat:"@ {
        LocationKey::RegulationCitation
    } else if k == "Erlaubniswert:"@ {
        LocationKey::Allowance
    } else {
        LocationKey::Unknown
    }
}

fn classify_location_key(k: &str) -> (r: LocationKey)
    ensures
        r == location_key(k@),
{
    if str_eq(k, "Nutzungsort Lfd. Nr.:") {
        LocationKey::Serial
    } else if str_eq(k, "Bezeichnung:") {
        LocationKey::Name
    } else if str_eq(k, "Rechtszweck:") {
        LocationKey::LegalPurpose
    } else if str_eq(k, "East und North:") {
        LocationKey::Easting
    } else if str_eq(k, "Top. Karte 1:25.000:") {
        LocationKey::MapExcerpt
    } else if str_eq(k, "(ETRS89/UTM 32N)") {
        LocationKey::Northing
    } else if str_eq(k, "Gemeindegebiet:") {
        LocationKey::MunicipalArea
    } else if str_eq(k, "Gemarkung, Flur:") {
        LocationKey::LandRecord
    } else if str_eq(k, "Unterhaltungsverband:") {
        LocationKey::MaintenanceAssociation
    } else if str_eq(k, "Flurstück:") {
        LocationKey::Plot
    } else if str_eq(k, "EU-Bearbeitungsgebiet:") {
        LocationKey::EuSurveyArea
    } else if str_eq(k, "Gewässer:") {
        LocationKey::WaterBody
    } else if str_eq(k, "Einzugsgebietskennzahl:") {
        LocationKey::CatchmentAreaCode
    } else if str_eq(k, "Verordnungszitat:") {
        LocationKey::RegulationCitation
    } else if str_eq(k, "Erlaubniswert:") {
        LocationKey::Allowance
    } else {
        LocationKey::Unknown
    }
}

/// Whether an optional pair holds a code and a name.
pub open spec fn numbered_is(p: Option<(u64, String)>, code: u64, name: Seq<char>) -> bool {
    p matches Some((c, n)) && c == code && n@ == name
}

/// The outcome of a code with a name, where both are given.
pub open spec fn numbered_ok(f: Option<(u64, String)>, o: Option<(u64, String)>, first: Option<Seq<char>>, second: Option<Seq<char>>) -> bool {
    match (first, second) {
        (None, None) => f == o,
        (Some(n), Some(s)) => numbered_is(f, u64_of(n)->0, s),
        _ => false,
    }
}

/// Whether a code with a name can be read from the values.
pub open spec fn numbered_valid(first: Option<Seq<char>>, second: Option<Seq<char>>) -> bool {
    match (first, second) {
        (None, None) => true,
        (Some(n), Some(_)) => u64_of(n) is Some,
        _ => false,
    }
}

/// Whether a code, alone or with a name, can be read from the values.
pub open spec fn single_or_pair_valid(first: Option<Seq<char>>) -> bool {
    match first {
        None => true,
        Some(n) => u64_of(without_char(n, ' ')) is Some,
    }
}

/// The outcome of a code, alone or with a name.
pub open spec fn single_or_pair_ok(f: Option<SingleOrPair<u64, String>>, o: Option<SingleOrPair<u64, String>>, first: Option<Seq<char>>, second: Option<Seq<char>>) -> bool {
    match (first, second) {
        (None, None) => f == o,
        (Some(n), None) => f == Some(SingleOrPair::<u64, String>::Single(u64_of(without_char(n, ' '))->0)),
        (Some(n), Some(s)) => f matches Some(SingleOrPair::Pair(c, t)) && c == u64_of(without_char(n, ' '))->0 && t@ == s,
        _ => false,
    }
}

/// Whether an entry of a usage location can be read: its key is known and
/// its values have the shape the key asks for.
pub open spec fn location_entry_valid(
    k: LocationKey,
    first: Option<Seq<char>>,
    second: Option<Seq<char>>,
    d: LegalDepartmentAbbreviation,
) -> bool {
    match k {
        LocationKey::Serial => first matches Some(v) && header_of(v) is Some,
        LocationKey::Name | LocationKey::WaterBody | LocationKey::RegulationCitation => true,
        LocationKey::LegalPurpose => first is Some,
        LocationKey::Allowance => first matches Some(v) && allowance_valid(v, d),
        LocationKey::Easting | LocationKey::Northing => first matches Some(v) && u64_of(v) is Some,
        LocationKey::MapExcerpt | LocationKey::CatchmentAreaCode => !(first is None && second is Some)
            && single_or_pair_valid(first),
        LocationKey::MunicipalArea | LocationKey::MaintenanceAssociation | LocationKey::EuSurveyArea => numbered_valid(first, second),
        LocationKey::LandRecord | LocationKey::Plot => !(first is None && second is Some),
        LocationKey::Unknown => false,
    }
}

/// What reading an entry of a usage location does to it: the entry's key
/// fills its field from the plain first and second values.
pub open spec fn location_read(
    k: LocationKey,
    first: Option<Seq<char>>,
    second: Option<Seq<char>>,
    department: LegalDepartmentAbbreviation,
    o: UsageLocation,
    f: UsageLocation,
) -> bool {
    match k {
        LocationKey::Serial => f.serial matches Some(sn) && header_of(first->0) == Some((sn@, f.active->0, f.real->0))
            && f.active is Some && f.real is Some
            && f == (UsageLocation { serial: f.serial, active: f.active, real: f.real, ..o }),
        LocationKey::Name => opt_view(f.name) == (match first { Some(v) => Some(replaced(v, '\n', ' ')), None => None })
            && f == (UsageLocation { name: f.name, ..o }),
        LocationKey::LegalPurpose => (match f.legal_purpose {
                Some((a, b)) => purpose_of(first->0) == Some((a@, b@)),
                None => purpose_of(first->0) is None,
            }) && f == (UsageLocation { legal_purpose: f.legal_purpose, ..o }),
        LocationKey::Easting => f.utm_easting == u64_of(first->0) && f == (UsageLocation { utm_easting: f.utm_easting, ..o }),
        LocationKey::Northing => f.utm_northing == u64_of(first->0) && f == (UsageLocation { utm_northing: f.utm_northing, ..o }),
        LocationKey::MapExcerpt => single_or_pair_ok(f.map_excerpt, o.map_excerpt, first, second)
            && f == (UsageLocation { map_excerpt: f.map_excerpt, ..o }),
        LocationKey::CatchmentAreaCode => single_or_pair_ok(f.catchment_area_code, o.catchment_area_code, first, second)
            && f == (UsageLocation { catchment_area_code: f.catchment_area_code, ..o }),
        LocationKey::MunicipalArea => numbered_ok(f.municipal_area, o.municipal_area, first, second)
            && f == (UsageLocation { municipal_area: f.municipal_area, ..o }),
        LocationKey::MaintenanceAssociation => numbered_ok(f.maintenance_association, o.maintenance_association, first, second)
            && f == (UsageLocation { maintenance_association: f.maintenance_association, ..o }),
        LocationKey::EuSurveyArea => numbered_ok(f.eu_survey_area, o.eu_survey_area, first, second)
            && f == (UsageLocation { eu_survey_area: f.eu_survey_area, ..o }),
        LocationKey::LandRecord => (match first {
                None => f.land_record == o.land_record,
                Some(v) => f.land_record matches Some(l) && land_view(l) == land_record_value(v),
            }) && f == (UsageLocation { land_record: f.land_record, ..o }),
        LocationKey::Plot => (match first {
                None => f.plot == o.plot,
                Some(v) => opt_view(f.plot) == Some(v),
            }) && f == (UsageLocation { plot: f.plot, ..o }),
        LocationKey::WaterBody => opt_view(f.water_body) == first && f == (UsageLocation { water_body: f.water_body, ..o }),
        LocationKey::RegulationCitation => opt_view(f.regulation_citation) == first
            && f == (UsageLocation { regulation_citation: f.regulation_citation, ..o }),
        LocationKey::Allowance => allowance_read(first->0, department, o, f),
        LocationKey::Unknown => false,
    }
}

/// What reading an entry of a usage location does to it.
pub open spec fn location_item_read(p: (String, Vec<String>), department: LegalDepartmentAbbreviation, o: UsageLocation, f: UsageLocation) -> bool {
    location_read(location_key(p.0@), sanitized(first_view(p.1@)), sanitized(second_view(p.1@)), department, o, f)
}

/// Reads one entry of a usage location into it. The first two values are
/// made plain first; each key fills its field, and an entry whose key is
/// unknown or whose values do not have the shape its key asks for fails;
/// allowance values are read by [`parse_allowance_value`].
#[verifier::rlimit(80)]
pub fn parse_location_entry(
    key: &String,
    values: &Vec<String>,
    location: &mut UsageLocation,
    department: LegalDepartmentAbbreviation,
) -> (r: Result<(), ParseError>)
    requires
        old(location).wf(),
    ensures
        final(location).wf(),
        !(r matches Err(ParseError::MissingPosition)),
        ({
            let first = sanitized(first_view(values@));
            let second = sanitized(second_view(values@));
            let k = location_key(key@);
            let o = *old(location);
            let f = *final(location);
            &&& r is Ok <==> location_entry_valid(k, first, second, department)
            &&& (r is Err && k != LocationKey::Allowance && !(r matches Err(ParseError::InvalidNumber(_)))
                && !(r matches Err(ParseError::InvalidLocationHeader(_)))) ==> (r matches Err(ParseError::InvalidLocationEntry(t)) && t@ == key@)
            &&& r is Ok ==> location_read(k, first, second, department, o, f)
            &&& (k == LocationKey::Allowance && first is Some && r is Err) ==> allowance_error(first->0, department, r->Err_0)
        }),
{
    let first = plain_value(values, 0);
    let second = plain_value(values, 1);
    let kind = classify_location_key(key.as_str());
    match kind {
        LocationKey::Serial => match first {
            Some(v) => match parse_header(v.as_str()) {
                Some((serial, active, is_real)) => {
                    location.serial = Some(serial);
                    location.active = Some(active);
                    location.real = Some(is_real);
                    Ok(())
                },
                None => Err(ParseError::InvalidLocationHeader(v)),
            },
            None => Err(ParseError::InvalidLocationEntry(key.clone())),
        },
        LocationKey::Name => {
            location.name = match first {
                Some(v) => Some(replace_char(v.as_str(), '\n', ' ')),
                None => None,
            };
            Ok(())
        },
        LocationKey::LegalPurpose => match first {
            Some(v) => {
                location.legal_purpose = parse_purpose(v.as_str());
                Ok(())
            },
            None => Err(ParseError::InvalidLocationEntry(key.clone())),
        },
        LocationKey::Easting | LocationKey::Northing => match first {
            Some(v) => match read_u64(&v) {
                Ok(n) => {
                    if kind == LocationKey::Easting {
                        location.utm_easting = Some(n);
                    } else {
                        location.utm_northing = Some(n);
                    }
                    Ok(())
                },
                Err(e) => Err(e),
            },
            None => Err(ParseError::InvalidLocationEntry(key.clone())),
        },
        LocationKey::MapExcerpt | LocationKey::CatchmentAreaCode => match read_single_or_pair(key, first, second) {
            Ok(Some(p)) => {
                if kind == LocationKey::MapExcerpt {
                    location.map_excerpt = Some(p);
                } else {
                    location.catchment_area_code = Some(p);
                }
                Ok(())
            },
            Ok(None) => Ok(()),
            Err(e) => Err(e),
        },
        LocationKey::MunicipalArea | LocationKey::MaintenanceAssociation | LocationKey::EuSurveyArea => match read_numbered(key, first, second) {
            Ok(Some(p)) => {
                if kind == LocationKey::MunicipalArea {
                    location.municipal_area = Some(p);
                } else if kind == LocationKey::MaintenanceAssociation {
                    location.maintenance_association = Some(p);
                } else {
                    location.eu_survey_area = Some(p);
                }
                Ok(())
            },
            Ok(None) => Ok(()),
            Err(e) => Err(e),
        },
        LocationKey::LandRecord | LocationKey::Plot => match (first, second) {
            (None, None) => Ok(()),
            (Some(v), _) => {
                if kind == LocationKey::LandRecord {
                    location.land_record = Some(read_land_record(v.as_str()));
                } else {
                    location.plot = Some(v);
                }
                Ok(())
            },
            (None, Some(_)) => Err(ParseError::InvalidLocationEntry(key.clone())),
        },
        LocationKey::WaterBody => {
            location.water_body = first;
            Ok(())
        },
        LocationKey::RegulationCitation => {
            location.regulation_citation = first;
            Ok(())
        },
        LocationKey::Allowance => match first {
            Some(v) => parse_allowance_value(&v, location, department),
            None => Err(ParseError::InvalidLocationEntry(key.clone())),
        },
        LocationKey::Unknown => Err(ParseError::InvalidLocationEntry(key.clone())),
    }
}

/// The field that a root key fills.
#[derive(Debug, Clone, Copy, PartialEq, Eq, Structural)]
pub enum RootKey {
    WaterAuthority,
    Identifier,
    RegisteringAuthority,
    GrantingAuthority,
    ValidFrom,
    InitiallyGranted,
    FileReference,
    ValidUntil,
    Subject,
    Ignored,
    Unknown,
}

/// The field of each root key.
pub open spec fn root_key(k: Seq<char>) -> RootKey {
    if k == "Wasserbuchbehörde"@ {
        RootKey::WaterAuthority
    } else if k == "Kennziffer"@ {
        RootKey::Identifier
    } else if k == "eingetragen durch:"@ {
        RootKey::RegisteringAuthority
    } else if k == "erteilt durch:"@ {
        RootKey::GrantingAuthority
    } else if k == "erteilt am:"@ {
        RootKey::ValidFrom
    } else if k == "erstmalig erteilt am:"@ || k == "erstmalig ertellt am:"@ {
        RootKey::InitiallyGranted
    } else if k == "Aktenzeichen:"@ {
        RootKey::FileReference
    } else if k == "Das Recht ist befristet bis"@ {
        RootKey::ValidUntil
    } else if k == "Betreff:"@ {
        RootKey::Subject
    } else if k == "erteilt durch /"@ || k == "abweichend"@ || k == "und betrifft Rechtsabteilungen"@ {
        RootKey::Ignored
    } else {
        RootKey::Unknown
    }
}

fn classify_root_key(k: &str) -> (r: RootKey)
    ensures
        r == root_key(k@),
{
    if str_eq(k, "Wasserbuchbehörde") {
        RootKey::WaterAuthority
    } else if str_eq(k, "Kennziffer") {
        RootKey::Identifier
    } else if str_eq(k, "eingetragen durch:") {
        RootKey::RegisteringAuthority
    } else if str_eq(k, "erteilt durch:") {
        RootKey::GrantingAuthority
    } else if str_eq(k, "erteilt am:") {
        RootKey::ValidFrom
    } else if str_eq(k, "erstmalig erteilt am:") || str_eq(k, "erstmalig ertellt am:") {
        RootKey::InitiallyGranted
    } else if str_eq(k, "Aktenzeichen:") {
        RootKey::FileReference
    } else if str_eq(k, "Das Recht ist befristet bis") {
        RootKey::ValidUntil
    } else if str_eq(k, "Betreff:") {
        RootKey::Subject
    } else if str_eq(k, "erteilt durch /") || str_eq(k, "abweichend") || str_eq(k, "und betrifft Rechtsabteilungen") {
        RootKey::Ignored
    } else {
        RootKey::Unknown
    }
}

/// The right part of an identifier value: what follows its last space, or
/// the whole value where it has none.
pub open spec fn identifier_right(v: Seq<char>) -> Seq<char> {
    let ls = crate::fields::last_index_of(v, ' ');
    if ls < 0 {
        v
    } else {
        v.subrange(ls + 1, v.len() as int)
    }
}

/// Whether an identifier value has the shape `[<external identifier> ]<(status)>`:
/// its right part encloses the status in one character on each side.
pub open spec fn identifier_valid(v: Seq<char>) -> bool {
    identifier_right(v).len() >= 2
}

/// The status and external identifier of an identifier value: split at
/// its last space, the right part without its first and last character is
/// the status, the left part (if any) the external identifier.
pub open spec fn identifier_parts(v: Seq<char>) -> (Seq<char>, Option<Seq<char>>) {
    let ls = crate::fields::last_index_of(v, ' ');
    let right = identifier_right(v);
    (right.subrange(1, right.len() - 1), if ls < 0 { None } else { Some(v.subrange(0, ls)) })
}

/// Splits an identifier value into status and external identifier; `None`
/// where its right part is too short to enclose a status.
fn split_identifier(value: &str) -> (r: Option<(String, Option<String>)>)
    ensures
        r is Some <==> identifier_valid(value@),
        r matches Some((st, ext)) ==> st@ == identifier_parts(value@).0 && opt_view(ext) == identifier_parts(value@).1,
{
    let v = chars_of(value);
    let n = v.len();
    assert(v@.subrange(0, n as int) =~= v@);
    let (right_start, external) = match crate::fields::find_last(&v, n, ' ') {
        Some(k) => (k + 1, Some(crate::text::string_of_range(&v, 0, k))),
        None => (0, None),
    };
    assert(identifier_right(value@) =~= v@.subrange(right_start as int, n as int));
    if n - right_start < 2 {
        return None;
    }
    let status = crate::text::string_of_range(&v, right_start + 1, n - 1);
    assert(status@ =~= v@.subrange(right_start as int, n as int).subrange(1, n - right_start - 1));
    Some((status, external))
}

/// The value that the last entry with a root key of kind `k` gives its
/// field, or `d` where there is none.
pub open spec fn last_root_value(items: Seq<(String, Vec<String>)>, k: RootKey, d: Option<Seq<char>>) -> Option<Seq<char>>
    decreases items.len(),
{
    if items.len() == 0 {
        d
    } else if root_key(items.last().0@) == k {
        sanitized(first_view(items.last().1@))
    } else {
        last_root_value(items.drop_last(), k, d)
    }
}

/// Whether a root entry can be read: its key is known, and an identifier
/// has a value of the identifier's shape.
pub open spec fn root_entry_valid(p: (String, Vec<String>)) -> bool {
    let k = root_key(p.0@);
    k != RootKey::Unknown && (k == RootKey::Identifier ==> (sanitized(first_view(p.1@)) matches Some(v) && identifier_valid(v)))
}

/// The fields that root entries fill, as the entries `items` leave them.
pub open spec fn root_filled(f: WaterRight, o: WaterRight, items: Seq<(String, Vec<String>)>) -> bool {
    let id = last_root_value(items, RootKey::Identifier, None);
    &&& opt_view(f.water_authority) == last_root_value(items, RootKey::WaterAuthority, opt_view(o.water_authority))
    &&& opt_view(f.registering_authority) == last_root_value(items, RootKey::RegisteringAuthority, opt_view(o.registering_authority))
    &&& opt_view(f.granting_authority) == last_root_value(items, RootKey::GrantingAuthority, opt_view(o.granting_authority))
    &&& opt_view(f.valid_from) == last_root_value(items, RootKey::ValidFrom, opt_view(o.valid_from))
    &&& opt_view(f.initially_granted) == last_root_value(items, RootKey::InitiallyGranted, opt_view(o.initially_granted))
    &&& opt_view(f.file_reference) == last_root_value(items, RootKey::FileReference, opt_view(o.file_reference))
    &&& opt_view(f.valid_until) == last_root_value(items, RootKey::ValidUntil, opt_view(o.valid_until))
    &&& opt_view(f.subject) == last_root_value(items, RootKey::Subject, opt_view(o.subject))
    &&& match id {
        Some(v) => opt_view(f.status) == Some(identifier_parts(v).0) && opt_view(f.external_identifier) == identifier_parts(v).1,
        None => f.status == o.status && f.external_identifier == o.external_identifier,
    }
    &&& f == (WaterRight {
        water_authority: f.water_authority,
        registering_authority: f.registering_authority,
        granting_authority: f.granting_authority,
        valid_from: f.valid_from,
        initially_granted: f.initially_granted,
        file_reference: f.file_reference,
        valid_until: f.valid_until,
        subject: f.subject,
        status: f.status,
        external_identifier: f.external_identifier,
        ..o
    })
}

/// Reads the entries of the root section into the water right: each field
/// takes the plain first value of the last entry of its key. An unknown
/// key, or an identifier without a value, fails at the first such entry.
#[verifier::rlimit(100)]
pub fn parse_root(items: &Vec<(String, Vec<String>)>, water_right: &mut WaterRight) -> (r: Result<(), ParseError>)
    ensures
        r is Ok <==> forall|i: int| 0 <= i < items@.len() ==> root_entry_valid(#[trigger] items@[i]),
        r is Ok ==> root_filled(*final(water_right), *old(water_right), items@),
        r matches Err(e) ==> e matches ParseError::InvalidRootEntry(k) && exists|i: int| 0 <= i < items@.len()
            && !root_entry_valid(#[trigger] items@[i]) && k@ == items@[i].0@,
{
    let mut i: usize = 0;
    assert(items@.subrange(0, 0) =~= Seq::<(String, Vec<String>)>::empty());
    while i < items.len()
        invariant
            i <= items@.len(),
            forall|j: int| 0 <= j < i ==> root_entry_valid(#[trigger] items@[j]),
            root_filled(*water_right, *old(water_right), items@.subrange(0, i as int)),
        decreases items@.len() - i,
    {
        let ghost pre = items@.subrange(0, i as int);
        let ghost now = items@.subrange(0, i + 1);
        assert(now.drop_last() =~= pre);
        assert(now.last() == items@[i as int]);
        let (key, values) = &items[i];
        let value = plain_value(values, 0);
        assert(opt_view(value) == sanitized(first_view(values@)));
        match classify_root_key(key.as_str()) {
            RootKey::WaterAuthority => water_right.water_authority = value,
            RootKey::Identifier => match value {
                Some(v) => match split_identifier(v.as_str()) {
                    Some((status, external)) => {
                        water_right.status = Some(status);
                        water_right.external_identifier = external;
                    },
                    None => {
                        return Err(ParseError::InvalidRootEntry(key.clone()));
                    },
                },
                None => {
                    return Err(ParseError::InvalidRootEntry(key.clone()));
                },
            },
            RootKey::RegisteringAuthority => water_right.registering_authority = value,
            RootKey::GrantingAuthority => water_right.granting_authority = value,
            RootKey::ValidFrom => water_right.valid_from = value,
            RootKey::InitiallyGranted => water_right.initially_granted = value,
            RootKey::FileReference => water_right.file_reference = value,
            RootKey::ValidUntil => water_right.valid_until = value,
            RootKey::Subject => water_right.subject = value,
            RootKey::Ignored => {},
            RootKey::Unknown => {
                return Err(ParseError::InvalidRootEntry(key.clone()));
            },
        }
        assert(root_filled(*water_right, *old(water_right), now));
        i = i + 1;
    }
    assert(items@.subrange(0, items@.len() as int) =~= items@);
    Ok(())
}

/// Whether an entry of a usage location of a department can be read.
pub open spec fn location_item_valid(p: (String, Vec<String>), d: LegalDepartmentAbbreviation) -> bool {
    location_entry_valid(location_key(p.0@), sanitized(first_view(p.1@)), sanitized(second_view(p.1@)), d)
}

/// Whether `states` are the usage locations that reading `items` one after
/// another passes through, from a blank one.
pub open spec fn location_states(items: Seq<(String, Vec<String>)>, department: LegalDepartmentAbbreviation, states: Seq<UsageLocation>) -> bool {
    &&& states.len() == items.len() + 1
    &&& states[0].is_blank()
    &&& forall|i: int| 0 <= i < items.len() ==> location_item_read(#[trigger] items[i], department, states[i], states[i + 1])
}

/// Whether a usage location is what reading `items` one after another
/// makes of a blank one.
pub open spec fn location_read_from(items: Seq<(String, Vec<String>)>, department: LegalDepartmentAbbreviation, l: UsageLocation) -> bool {
    exists|states: Seq<UsageLocation>| #[trigger] location_states(items, department, states) && states.last() == l
}

/// Reads the entries of one usage location, in order, into a new usage
/// location; fails at the first entry that cannot be read.
pub fn parse_usage_location(items: &Vec<(String, Vec<String>)>, department: LegalDepartmentAbbreviation) -> (r: Result<UsageLocation, ParseError>)
    ensures
        r is Ok <==> forall|i: int| 0 <= i < items@.len() ==> location_item_valid(#[trigger] items@[i], department),
        r matches Ok(l) ==> l.wf() && location_read_from(items@, department, l),
        !(r matches Err(ParseError::MissingPosition)),
        items@.len() == 0 ==> (r matches Ok(l) && l.is_blank()),
{
    let mut location = UsageLocation::new();
    let ghost mut states: Seq<UsageLocation> = seq![location];
    let mut i: usize = 0;
    while i < items.len()
        invariant
            i <= items@.len(),
            location.wf(),
            forall|j: int| 0 <= j < i ==> location_item_valid(#[trigger] items@[j], department),
            i == 0 ==> location.is_blank(),
            location_states(items@.subrange(0, i as int), department, states),
            states.last() == location,
        decreases items@.len() - i,
    {
        let ghost before = location;
        let (key, values) = &items[i];
        match parse_location_entry(key, values, &mut location, department) {
            Ok(()) => {},
            Err(e) => {
                return Err(e);
            },
        }
        proof {
            let prev = states;
            states = states.push(location);
            let now = items@.subrange(0, i + 1);
            assert forall|j: int| 0 <= j < now.len() implies location_item_read(#[trigger] now[j], department, states[j], states[j + 1]) by {
                if j < i {
                    assert(now[j] == items@.subrange(0, i as int)[j]);
                    assert(states[j] == prev[j] && states[j + 1] == prev[j + 1]);
                } else {
                    assert(now[j] == items@[i as int]);
                    assert(states[j] == before);
                }
            }
        }
        i = i + 1;
    }
    assert(items@.subrange(0, items@.len() as int) =~= items@);
    Ok(location)
}

/// Whether a department of the segmented pairs can be read: its label
/// names a department and has a description, and every entry of its usage
/// locations can be read.
pub open spec fn department_valid(d: (String, Vec<Vec<(String, Vec<String>)>>)) -> bool {
    let parts = department_parts(d.0@);
    &&& abbreviation_of(parts.0) is Some
    &&& parts.1 is Some
    &&& forall|i: int, j: int| 0 <= i < d.1@.len() && 0 <= j < d.1@[i]@.len()
        ==> location_item_valid(#[trigger] d.1@[i]@[j], abbreviation_of(parts.0)->0)
}

/// The department that a label names.
pub open spec fn label_abbreviation(d: (String, Vec<Vec<(String, Vec<String>)>>)) -> LegalDepartmentAbbreviation {
    abbreviation_of(department_parts(d.0@).0)->0
}

/// The abbreviations of the departments after adding those of `ds` in
/// order: one that is held already keeps its place, a new one comes last.
pub open spec fn abbreviations_after(
    abbrs: Seq<LegalDepartmentAbbreviation>,
    ds: Seq<(String, Vec<Vec<(String, Vec<String>)>>)>,
) -> Seq<LegalDepartmentAbbreviation>
    decreases ds.len(),
{
    if ds.len() == 0 {
        abbrs
    } else {
        let prev = abbreviations_after(abbrs, ds.drop_last());
        let a = label_abbreviation(ds.last());
        if prev.contains(a) {
            prev
        } else {
            prev.push(a)
        }
    }
}

/// Whether the department read last for an abbreviation was read from
/// `d`: it holds the description of `d`'s label and one usage location per
/// location of `d`.
pub open spec fn department_from(w: WaterRight, d: (String, Vec<Vec<(String, Vec<String>)>>)) -> bool {
    let a = label_abbreviation(d);
    let j = first_of(w.abbreviations(), a);
    &&& 0 <= j < w.legal_departments@.len()
    &&& w.legal_departments@[j].description@ == department_parts(d.0@).1->0
    &&& w.legal_departments@[j].usage_locations@.len() == d.1@.len()
    &&& forall|n: int| 0 <= n < d.1@.len()
        ==> location_read_from(d.1@[n]@, a, #[trigger] w.legal_departments@[j].usage_locations@[n])
}

/// Reads one department of the segmented pairs with its usage locations.
fn read_department(label: &String, locations: &Vec<Vec<(String, Vec<String>)>>) -> (r: Result<LegalDepartment, ParseError>)
    ensures
        r is Ok <==> department_valid((*label, *locations)),
        !(r matches Err(ParseError::MissingPosition)),
        r matches Ok(d) ==> d.abbreviation == label_abbreviation((*label, *locations))
            && d.description@ == department_parts(label@).1->0
            && d.usage_locations@.len() == locations@.len()
            && forall|n: int| 0 <= n < locations@.len()
                ==> location_read_from(locations@[n]@, d.abbreviation, #[trigger] d.usage_locations@[n]),
{
    let (abbreviation_text, description) = split_department_label(label.as_str());
    let abbreviation = match LegalDepartmentAbbreviation::from_str(abbreviation_text.as_str()) {
        Ok(a) => a,
        Err(e) => {
            return Err(ParseError::UnknownDepartment(e));
        },
    };
    let description = match description {
        Some(d) => d,
        None => {
            return Err(ParseError::MissingDescription(label.clone()));
        },
    };
    let mut department = LegalDepartment::new(abbreviation, description);
    let mut j: usize = 0;
    while j < locations.len()
        invariant
            j <= locations@.len(),
            department.abbreviation == abbreviation,
            department.description@ == department_parts(label@).1->0,
            department.usage_locations@.len() == j,
            forall|n: int| 0 <= n < j ==> location_read_from(locations@[n]@, abbreviation, #[trigger] department.usage_locations@[n]),
            abbreviation_of(department_parts(label@).0) == Some(abbreviation),
            forall|m: int, n: int| 0 <= m < j && 0 <= n < locations@[m]@.len()
                ==> location_item_valid(#[trigger] locations@[m]@[n], abbreviation),
        decreases locations@.len() - j,
    {
        match parse_usage_location(&locations[j], abbreviation) {
            Ok(l) => department.usage_locations.push(l),
            Err(e) => {
                proof {
                    let k = choose|k: int| 0 <= k < locations@[j as int]@.len()
                        && !location_item_valid(#[trigger] locations@[j as int]@[k], abbreviation);
                    assert(!location_item_valid(locations@[j as int]@[k], abbreviation));
                    assert((*label, *locations).1 == *locations);
                    assert(!department_valid((*label, *locations)));
                }
                return Err(e);
            },
        }
        j = j + 1;
    }
    Ok(department)
}

/// Reads the departments of the segmented pairs into the water right, each
/// with its usage locations; a department replaces one of the same
/// abbreviation. Fails at the first department that cannot be read.
pub fn parse_departments(
    departments: &Vec<(String, Vec<Vec<(String, Vec<String>)>>)>,
    water_right: &mut WaterRight,
) -> (r: Result<(), ParseError>)
    ensures
        r is Ok <==> forall|i: int| 0 <= i < departments@.len() ==> department_valid(#[trigger] departments@[i]),
        !(r matches Err(ParseError::MissingPosition)),
        r is Ok ==> final(water_right).abbreviations() == abbreviations_after(old(water_right).abbreviations(), departments@),
        r is Ok ==> forall|i: int| 0 <= i < departments@.len() && last_of_its_kind(departments@, i, departments@.len() as int)
            ==> department_from(*final(water_right), #[trigger] departments@[i]),
        *final(water_right) == (WaterRight { legal_departments: final(water_right).legal_departments, ..*old(water_right) }),
{
    let mut i: usize = 0;
    while i < departments.len()
        invariant
            i <= departments@.len(),
            forall|k: int| 0 <= k < i ==> department_valid(#[trigger] departments@[k]),
            water_right.abbreviations() == abbreviations_after(old(water_right).abbreviations(), departments@.subrange(0, i as int)),
            forall|m: int| 0 <= m < i && last_of_its_kind(departments@, m, i as int)
                ==> department_from(*water_right, #[trigger] departments@[m]),
            *water_right == (WaterRight { legal_departments: water_right.legal_departments, ..*old(water_right) }),
        decreases departments@.len() - i,
    {
        let (label, locations) = &departments[i];
        let department = match read_department(label, locations) {
            Ok(d) => d,
            Err(e) => {
                return Err(e);
            },
        };
        let abbreviation = department.abbreviation;
        let ghost before = water_right.abbreviations();
        let ghost before_right = *water_right;
        let ghost nd = department;
        water_right.insert_department(department);
        proof {
            lemma_department_step(before_right, *water_right, departments@, i as int, nd, old(water_right).abbreviations());
        }
        i = i + 1;
    }
    assert(departments@.subrange(0, departments@.len() as int) =~= departments@);
    Ok(())
}

/// Whether no department after `m`, up to `n`, has the abbreviation of
/// department `m`.
pub open spec fn last_of_its_kind(ds: Seq<(String, Vec<Vec<(String, Vec<String>)>>)>, m: int, n: int) -> bool {
    forall|k: int| m < k < n ==> label_abbreviation(#[trigger] ds[k]) != label_abbreviation(ds[m])
}

/// The departments after inserting `nd`: it replaces the one of its
/// abbreviation, or comes last.
pub open spec fn inserted_department(b: WaterRight, nd: LegalDepartment) -> Seq<LegalDepartment> {
    let fi = first_of(b.abbreviations(), nd.abbreviation);
    if fi >= 0 {
        b.legal_departments@.update(fi, nd)
    } else {
        b.legal_departments@.push(nd)
    }
}

proof fn lemma_inserted_abbreviations(b: WaterRight, w: WaterRight, nd: LegalDepartment)
    requires
        w.legal_departments@ == inserted_department(b, nd),
    ensures
        w.abbreviations() == if b.abbreviations().contains(nd.abbreviation) {
            b.abbreviations()
        } else {
            b.abbreviations().push(nd.abbreviation)
        },
{
    let before = b.abbreviations();
    crate::model::lemma_first_of_bound(before, nd.abbreviation);
    crate::model::lemma_first_of_contains(before, nd.abbreviation);
    if first_of(before, nd.abbreviation) >= 0 {
        assert(w.abbreviations() =~= before);
    } else {
        assert(w.abbreviations() =~= before.push(nd.abbreviation));
    }
}

proof fn lemma_inserted_found(b: WaterRight, w: WaterRight, nd: LegalDepartment)
    requires
        w.legal_departments@ == inserted_department(b, nd),
    ensures
        ({
            let j = first_of(w.abbreviations(), nd.abbreviation);
            0 <= j < w.legal_departments@.len() && w.legal_departments@[j] == nd
        }),
{
    let before = b.abbreviations();
    let a0 = nd.abbreviation;
    lemma_inserted_abbreviations(b, w, nd);
    crate::model::lemma_first_of_bound(before, a0);
    crate::model::lemma_first_of_contains(before, a0);
    if first_of(before, a0) < 0 {
        lemma_first_new(before, a0);
    }
}

proof fn lemma_inserted_other(b: WaterRight, w: WaterRight, nd: LegalDepartment, a: LegalDepartmentAbbreviation)
    requires
        w.legal_departments@ == inserted_department(b, nd),
        a != nd.abbreviation,
        b.abbreviations().contains(a),
    ensures
        first_of(w.abbreviations(), a) == first_of(b.abbreviations(), a),
        w.legal_departments@[first_of(b.abbreviations(), a)] == b.legal_departments@[first_of(b.abbreviations(), a)],
        0 <= first_of(b.abbreviations(), a) < b.legal_departments@.len(),
{
    let before = b.abbreviations();
    let a0 = nd.abbreviation;
    lemma_inserted_abbreviations(b, w, nd);
    crate::model::lemma_first_of_bound(before, a);
    crate::model::lemma_first_of_contains(before, a);
    crate::model::lemma_first_of_bound(before, a0);
    crate::model::lemma_first_of_contains(before, a0);
    if first_of(before, a0) < 0 {
        crate::model::lemma_first_of_push(before, a0, a);
    }
}

proof fn lemma_department_step(
    b: WaterRight,
    w: WaterRight,
    ds: Seq<(String, Vec<Vec<(String, Vec<String>)>>)>,
    i: int,
    nd: LegalDepartment,
    old_abbrs: Seq<LegalDepartmentAbbreviation>,
)
    requires
        0 <= i < ds.len(),
        b.abbreviations() == abbreviations_after(old_abbrs, ds.subrange(0, i)),
        forall|m: int| 0 <= m < i && last_of_its_kind(ds, m, i) ==> department_from(b, #[trigger] ds[m]),
        nd.abbreviation == label_abbreviation(ds[i]),
        nd.description@ == department_parts(ds[i].0@).1->0,
        nd.usage_locations@.len() == ds[i].1@.len(),
        forall|n: int| 0 <= n < ds[i].1@.len()
            ==> location_read_from(ds[i].1@[n]@, nd.abbreviation, #[trigger] nd.usage_locations@[n]),
        w.legal_departments@ == inserted_department(b, nd),
    ensures
        w.abbreviations() == abbreviations_after(old_abbrs, ds.subrange(0, i + 1)),
        forall|m: int| 0 <= m < i + 1 && last_of_its_kind(ds, m, i + 1) ==> department_from(w, #[trigger] ds[m]),
{
    let now = ds.subrange(0, i + 1);
    assert(now.drop_last() =~= ds.subrange(0, i));
    assert(now.last() == ds[i]);
    lemma_inserted_abbreviations(b, w, nd);
    assert forall|m: int| 0 <= m < i + 1 && last_of_its_kind(ds, m, i + 1) implies department_from(w, #[trigger] ds[m]) by {
        if m == i {
            lemma_inserted_found(b, w, nd);
        } else {
            let a = label_abbreviation(ds[m]);
            assert(label_abbreviation(ds[i]) != a);
            assert(last_of_its_kind(ds, m, i));
            assert(department_from(b, ds[m]));
            crate::model::lemma_first_of_bound(b.abbreviations(), a);
            crate::model::lemma_first_of_contains(b.abbreviations(), a);
            lemma_inserted_other(b, w, nd, a);
        }
    }
}

proof fn lemma_first_new(s: Seq<LegalDepartmentAbbreviation>, a: LegalDepartmentAbbreviation)
    requires
        !s.contains(a),
    ensures
        first_of(s.push(a), a) == s.len(),
    decreases s.len(),
{
    if s.len() == 0 {
        assert(s.push(a) =~= seq![a]);
    } else {
        assert(s.push(a).drop_first() =~= s.drop_first().push(a));
        assert(s[0] != a);
        assert(!s.drop_first().contains(a)) by {
            if s.drop_first().contains(a) {
                let k = choose|k: int| 0 <= k < s.drop_first().len() && s.drop_first()[k] == a;
                assert(s[k + 1] == a);
            }
        }
        lemma_first_new(s.drop_first(), a);
    }
}

} // verus!
