//! The typed record model of a water right.
use vstd::prelude::*;

use crate::helper_types::{OrFallback, Quantity, RateRecord, SingleOrPair};
use crate::text::push_all;

verus! {

/// The number that identifies a water right.
pub type WaterRightNo = u64;

/// A single water right.
#[derive(Debug)]
pub struct WaterRight {
    /// "Wasserrecht Nr."
    pub no: WaterRightNo,
    /// "Rechtsinhaber"
    pub holder: Option<String>,
    /// "Gültig Bis"
    pub valid_until: Option<String>,
    /// "Zustand"
    pub status: Option<String>,
    /// "Gültig Ab/erteilt am"
    pub valid_from: Option<String>,
    /// "Rechtstitel"
    pub legal_title: Option<String>,
    /// "Wasserbehörde"
    pub water_authority: Option<String>,
    /// "eingetragen durch"
    pub registering_authority: Option<String>,
    /// "Erteilende Behörde/erteilt durch"
    pub granting_authority: Option<String>,
    /// "erstmalig erstellt am"
    pub initially_granted: Option<String>,
    /// "Änderungsdatum"
    pub last_change: Option<String>,
    /// "Aktenzeichen"
    pub file_reference: Option<String>,
    /// "Externe Kennung"
    pub external_identifier: Option<String>,
    /// "Betreff"
    pub subject: Option<String>,
    /// "Adresse"
    pub address: Option<String>,
    /// The legal departments of the right, at most one per abbreviation.
    pub legal_departments: Vec<LegalDepartment>,
    /// "Bemerkung"
    pub annotation: Option<String>,
}

/// One of the legal departments a water right is split into.
#[derive(Debug)]
pub struct LegalDepartment {
    /// "Abteilungsbezeichnung"
    pub description: String,
    /// "Abteilungskürzel"
    pub abbreviation: LegalDepartmentAbbreviation,
    /// "Nutzungsorte"
    pub usage_locations: Vec<UsageLocation>,
}

/// A district and field number of the land register.
#[derive(Debug)]
pub struct LandRecord {
    pub district: String,
    pub field: u32,
}

/// pH values of the water.
#[derive(Debug)]
pub struct PHValues {
    pub min: Option<u64>,
    pub max: Option<u64>,
}

/// Targets the dam should be at.
#[derive(Debug)]
pub struct DamTargets {
    pub default: Option<Quantity>,
    /// "Dauerstau"
    pub steady: Option<Quantity>,
    /// "Höchststau"
    pub max: Option<Quantity>,
}

impl DamTargets {
    /// No targets.
    pub fn new() -> (r: Self)
        ensures
            r.default is None,
            r.steady is None,
            r.max is None,
    {
        DamTargets { default: None, steady: None, max: None }
    }

    /// Whether no target is set.
    pub fn is_empty(&self) -> (r: bool)
        ensures
            r == (self.default is None && self.steady is None && self.max is None),
    {
        self.steady.is_none() && self.max.is_none() && self.default.is_none()
    }
}

/// A site of water use.
#[derive(Debug)]
pub struct UsageLocation {
    /// "Nutzungsort Nr."
    pub no: Option<u64>,
    /// "Nutzungsort Lfd. Nr."
    pub serial: Option<String>,
    /// "aktiv/inaktiv"
    pub active: Option<bool>,
    /// "real/virtuell"
    pub real: Option<bool>,
    /// "Nutzungsort/Bezeichnung"
    pub name: Option<String>,
    /// "Rechtszweck"
    pub legal_purpose: Option<(String, String)>,
    /// "Top. Karte 1:25.000"
    pub map_excerpt: Option<SingleOrPair<u64, String>>,
    /// "Gemeindegebiet"
    pub municipal_area: Option<(u64, String)>,
    /// "Landkreis"
    pub county: Option<String>,
    /// "Gemarkung, Flur"
    pub land_record: Option<OrFallback<LandRecord>>,
    /// "Flurstück"
    pub plot: Option<String>,
    /// "Unterhaltungsverband"
    pub maintenance_association: Option<(u64, String)>,
    /// "EU-Bearbeitungsgebiet"
    pub eu_survey_area: Option<(u64, String)>,
    /// "Einzugsgebietskennzahl"
    pub catchment_area_code: Option<SingleOrPair<u64, String>>,
    /// "Verordnungszitat"
    pub regulation_citation: Option<String>,
    /// "Entnahmemenge"
    pub withdrawal_rates: RateRecord,
    /// "Förderleistung"
    pub pumping_rates: RateRecord,
    /// "Einleitungsmenge"
    pub injection_rates: RateRecord,
    /// "Abwasservolumenstrom"
    pub waste_water_flow_volume: RateRecord,
    /// "Flussgebiet"
    pub river_basin: Option<String>,
    /// "Grundwasserkörper"
    pub groundwater_body: Option<String>,
    /// "Gewässer"
    pub water_body: Option<String>,
    /// "Überschwemmungsgebiet"
    pub flood_area: Option<String>,
    /// "Wasserschutzgebiet"
    pub water_protection_area: Option<String>,
    /// "Stauziele"
    pub dam_target_levels: DamTargets,
    /// "Ableitungsmenge"
    pub fluid_discharge: RateRecord,
    /// "Zusatzregen"
    pub rain_supplement: RateRecord,
    /// "Beregnungsfläche"
    pub irrigation_area: Option<Quantity>,
    /// "pH-Werte"
    pub ph_values: Option<PHValues>,
    /// "Erlaubniswert" of the departments B, C and F
    pub injection_limits: Vec<(String, Quantity)>,
    /// "UTM-Rechtswert"
    pub utm_easting: Option<u64>,
    /// "UTM-Hochwert"
    pub utm_northing: Option<u64>,
}

impl UsageLocation {
    /// Whether the rate records are well formed.
    pub open spec fn wf(&self) -> bool {
        &&& self.withdrawal_rates.wf()
        &&& self.pumping_rates.wf()
        &&& self.injection_rates.wf()
        &&& self.waste_water_flow_volume.wf()
        &&& self.fluid_discharge.wf()
        &&& self.rain_supplement.wf()
    }

    /// Whether no field is set.
    pub open spec fn is_blank(&self) -> bool {
        &&& self.no is None
        &&& self.serial is None
        &&& self.active is None
        &&& self.real is None
        &&& self.name is None
        &&& self.legal_purpose is None
        &&& self.map_excerpt is None
        &&& self.municipal_area is None
        &&& self.county is None
        &&& self.land_record is None
        &&& self.plot is None
        &&& self.maintenance_association is None
        &&& self.eu_survey_area is None
        &&& self.catchment_area_code is None
        &&& self.regulation_citation is None
        &&& self.withdrawal_rates@.len() == 0
        &&& self.pumping_rates@.len() == 0
        &&& self.injection_rates@.len() == 0
        &&& self.waste_water_flow_volume@.len() == 0
        &&& self.river_basin is None
        &&& self.groundwater_body is None
        &&& self.water_body is None
        &&& self.flood_area is None
        &&& self.water_protection_area is None
        &&& self.dam_target_levels.default is None
        &&& self.dam_target_levels.steady is None
        &&& self.dam_target_levels.max is None
        &&& self.fluid_discharge@.len() == 0
        &&& self.rain_supplement@.len() == 0
        &&& self.irrigation_area is None
        &&& self.ph_values is None
        &&& self.injection_limits@.len() == 0
        &&& self.utm_easting is None
        &&& self.utm_northing is None
    }

    /// A usage location with no field set.
    pub fn new() -> (r: Self)
        ensures
            r.is_blank(),
            r.wf(),
    {
        UsageLocation {
            no: None,
            serial: None,
            active: None,
            real: None,
            name: None,
            legal_purpose: None,
            map_excerpt: None,
            municipal_area: None,
            county: None,
            land_record: None,
            plot: None,
            maintenance_association: None,
            eu_survey_area: None,
            catchment_area_code: None,
            regulation_citation: None,
            withdrawal_rates: RateRecord::new(),
            pumping_rates: RateRecord::new(),
            injection_rates: RateRecord::new(),
            waste_water_flow_volume: RateRecord::new(),
            river_basin: None,
            groundwater_body: None,
            water_body: None,
            flood_area: None,
            water_protection_area: None,
            dam_target_levels: DamTargets::new(),
            fluid_discharge: RateRecord::new(),
            rain_supplement: RateRecord::new(),
            irrigation_area: None,
            ph_values: None,
            injection_limits: Vec::new(),
            utm_easting: None,
            utm_northing: None,
        }
    }
}

impl LegalDepartment {
    /// A department without usage locations.
    pub fn new(abbreviation: LegalDepartmentAbbreviation, description: String) -> (r: Self)
        ensures
            r.abbreviation == abbreviation,
            r.description == description,
            r.usage_locations@.len() == 0,
    {
        LegalDepartment { description, abbreviation, usage_locations: Vec::new() }
    }
}

impl WaterRight {
    /// A water right with only its number set.
    pub fn new(water_right_no: WaterRightNo) -> (r: Self)
        ensures
            r.no == water_right_no,
            r.holder is None,
            r.valid_until is None,
            r.status is None,
            r.valid_from is None,
            r.legal_title is None,
            r.water_authority is None,
            r.registering_authority is None,
            r.granting_authority is None,
            r.initially_granted is None,
            r.last_change is None,
            r.file_reference is None,
            r.external_identifier is None,
            r.subject is None,
            r.address is None,
            r.legal_departments@.len() == 0,
            r.annotation is None,
    {
        WaterRight {
            no: water_right_no,
            holder: None,
            valid_until: None,
            status: None,
            valid_from: None,
            legal_title: None,
            water_authority: None,
            registering_authority: None,
            granting_authority: None,
            initially_granted: None,
            last_change: None,
            file_reference: None,
            external_identifier: None,
            subject: None,
            address: None,
            legal_departments: Vec::new(),
            annotation: None,
        }
    }

    /// The abbreviations of the departments, in order.
    pub open spec fn abbreviations(&self) -> Seq<LegalDepartmentAbbreviation> {
        self.legal_departments@.map_values(|d: LegalDepartment| d.abbreviation)
    }

    /// Sets the department of its abbreviation: it replaces the one held
    /// under that abbreviation, or is added at the end.
    pub fn insert_department(&mut self, department: LegalDepartment)
        ensures
            ({
                let ds = old(self).legal_departments@;
                let i = first_of(old(self).abbreviations(), department.abbreviation);
                final(self).legal_departments@ == if i >= 0 {
                    ds.update(i, department)
                } else {
                    ds.push(department)
                }
            }),
            *final(self) == (WaterRight { legal_departments: final(self).legal_departments, ..*old(self) }),
    {
        let ghost abbrs = self.abbreviations();
        let mut i: usize = 0;
        while i < self.legal_departments.len()
            invariant
                i <= self.legal_departments@.len(),
                self.legal_departments@ == old(self).legal_departments@,
                *self == (WaterRight { legal_departments: self.legal_departments, ..*old(self) }),
                abbrs == old(self).abbreviations(),
                forall|k: int| 0 <= k < i ==> abbrs[k] != department.abbreviation,
            decreases self.legal_departments@.len() - i,
        {
            if self.legal_departments[i].abbreviation == department.abbreviation {
                proof {
                    lemma_first_of(abbrs, department.abbreviation, i as int);
                }
                self.legal_departments[i] = department;
                return;
            }
            i = i + 1;
        }
        proof {
            lemma_first_of(abbrs, department.abbreviation, i as int);
        }
        self.legal_departments.push(department);
    }
}

/// The index of the first `a` in `s`, or -1.
pub open spec fn first_of<A>(s: Seq<A>, a: A) -> int
    decreases s.len(),
{
    if s.len() == 0 {
        -1
    } else if s[0] == a {
        0
    } else {
        let k = first_of(s.drop_first(), a);
        if k < 0 {
            -1
        } else {
            k + 1
        }
    }
}

proof fn lemma_first_of<A>(s: Seq<A>, a: A, i: int)
    requires
        0 <= i <= s.len(),
        forall|k: int| 0 <= k < i ==> s[k] != a,
    ensures
        i < s.len() && s[i] == a ==> first_of(s, a) == i,
        i == s.len() ==> first_of(s, a) == -1,
    decreases i,
{
    if i > 0 {
        let d = s.drop_first();
        assert forall|k: int| 0 <= k < i - 1 implies d[k] != a by {
            assert(d[k] == s[k + 1]);
        }
        if i < s.len() {
            assert(d[i - 1] == s[i]);
        }
        lemma_first_of(d, a, i - 1);
    }
}

/// The first index of a value lies within the sequence and holds it.
pub proof fn lemma_first_of_bound<A>(s: Seq<A>, a: A)
    ensures
        -1 <= first_of(s, a) < s.len(),
        first_of(s, a) >= 0 ==> s[first_of(s, a)] == a,
    decreases s.len(),
{
    if s.len() > 0 && s[0] != a {
        lemma_first_of_bound(s.drop_first(), a);
    }
}

/// A value is found exactly where it is contained.
pub proof fn lemma_first_of_contains<A>(s: Seq<A>, a: A)
    ensures
        (first_of(s, a) >= 0) == s.contains(a),
    decreases s.len(),
{
    lemma_first_of_bound(s, a);
    if s.len() > 0 && s[0] != a {
        lemma_first_of_contains(s.drop_first(), a);
        if s.contains(a) {
            let k = choose|k: int| 0 <= k < s.len() && s[k] == a;
            assert(s.drop_first()[k - 1] == a);
        }
        if s.drop_first().contains(a) {
            let k = choose|k: int| 0 <= k < s.drop_first().len() && s.drop_first()[k] == a;
            assert(s[k + 1] == a);
        }
    } else if s.len() > 0 {
        assert(s[0] == a);
    }
}

/// Appending another value keeps the first index of a contained value.
pub proof fn lemma_first_of_push<A>(s: Seq<A>, b: A, a: A)
    requires
        s.contains(a) || a != b,
    ensures
        first_of(s.push(b), a) == if s.contains(a) { first_of(s, a) } else { -1 },
    decreases s.len(),
{
    lemma_first_of_contains(s, a);
    if s.len() == 0 {
        assert(s.push(b) =~= seq![b]);
        assert(s.push(b).drop_first() =~= Seq::<A>::empty());
        assert(first_of(Seq::<A>::empty(), a) == -1);
        assert(s.push(b)[0] == b);
        assert(!s.contains(a));
    } else {
        let t = s.drop_first();
        assert(s.push(b).drop_first() =~= t.push(b));
        assert(s.push(b)[0] == s[0]);
        if s[0] == a {
            assert(s.contains(a));
        } else {
            assert(s.contains(a) == t.contains(a)) by {
                if s.contains(a) {
                    let k = choose|k: int| 0 <= k < s.len() && s[k] == a;
                    assert(t[k - 1] == a);
                }
                if t.contains(a) {
                    let k = choose|k: int| 0 <= k < t.len() && t[k] == a;
                    assert(s[k + 1] == a);
                }
            }
            lemma_first_of_push(t, b, a);
            lemma_first_of_contains(t, a);
            assert(first_of(s.push(b), a) == (if first_of(t.push(b), a) < 0 { -1 } else { first_of(t.push(b), a) + 1 }));
            assert(first_of(s, a) == (if first_of(t, a) < 0 { -1 } else { first_of(t, a) + 1 }));
        }
    }
}

/// The abbreviations of the legal departments.
#[derive(Debug, Clone, Copy, PartialEq, Eq, Structural, Hash, PartialOrd, Ord)]
pub enum LegalDepartmentAbbreviation {
    /// "Entnahme von Wasser oder Entnahmen fester Stoffe aus oberirdischen Gewässern"
    A,
    /// "Einbringen und Einleiten von Stoffen in oberirdische und Küstengewässer"
    B,
    /// "Aufstauen und Absenken oberirdischer Gewässer"
    C,
    /// "Andere Einwirkung auf oberirdische Gewässer"
    D,
    /// "Entnahme, Zutageförderung, Zutageleiten und Ableiten von Grundwasser"
    E,
    /// "Andere Nutzungen und Einwirkungen auf das Grundwasser"
    F,
    /// "Zwangsrechte"
    K,
    /// "Fischereirechte"
    L,
}

/// A text that names no legal department.
#[derive(Debug)]
pub struct ParseLegalDepartmentError(pub String);

impl ParseLegalDepartmentError {
    /// The message that describes the error.
    pub fn message(&self) -> (r: String)
        ensures
            r@ == "unknown legal department abbreviation "@ + self.0@,
    {
        let mut m = String::new();
        push_all(&mut m, "unknown legal department abbreviation ");
        push_all(&mut m, self.0.as_str());
        m
    }
}

/// The letter of each department.
pub open spec fn abbreviation_letter(a: LegalDepartmentAbbreviation) -> char {
    match a {
        LegalDepartmentAbbreviation::A => 'A',
        LegalDepartmentAbbreviation::B => 'B',
        LegalDepartmentAbbreviation::C => 'C',
        LegalDepartmentAbbreviation::D => 'D',
        LegalDepartmentAbbreviation::E => 'E',
        LegalDepartmentAbbreviation::F => 'F',
        LegalDepartmentAbbreviation::K => 'K',
        LegalDepartmentAbbreviation::L => 'L',
    }
}

/// The department whose letter is the whole of `s`.
pub open spec fn abbreviation_of(s: Seq<char>) -> Option<LegalDepartmentAbbreviation> {
    if s.len() != 1 {
        None
    } else if s[0] == 'A' {
        Some(LegalDepartmentAbbreviation::A)
    } else if s[0] == 'B' {
        Some(LegalDepartmentAbbreviation::B)
    } else if s[0] == 'C' {
        Some(LegalDepartmentAbbreviation::C)
    } else if s[0] == 'D' {
        Some(LegalDepartmentAbbreviation::D)
    } else if s[0] == 'E' {
        Some(LegalDepartmentAbbreviation::E)
    } else if s[0] == 'F' {
        Some(LegalDepartmentAbbreviation::F)
    } else if s[0] == 'K' {
        Some(LegalDepartmentAbbreviation::K)
    } else if s[0] == 'L' {
        Some(LegalDepartmentAbbreviation::L)
    } else {
        None
    }
}

impl LegalDepartmentAbbreviation {
    /// The letter of the department.
    pub fn letter(&self) -> (r: char)
        ensures
            r == abbreviation_letter(*self),
    {
        match self {
            LegalDepartmentAbbreviation::A => 'A',
            LegalDepartmentAbbreviation::B => 'B',
            LegalDepartmentAbbreviation::C => 'C',
            LegalDepartmentAbbreviation::D => 'D',
            LegalDepartmentAbbreviation::E => 'E',
            LegalDepartmentAbbreviation::F => 'F',
            LegalDepartmentAbbreviation::K => 'K',
            LegalDepartmentAbbreviation::L => 'L',
        }
    }

    /// The department named by its letter.
    pub fn from_str(s: &str) -> (r: Result<Self, ParseLegalDepartmentError>)
        ensures
            match r {
                Ok(a) => abbreviation_of(s@) == Some(a),
                Err(e) => abbreviation_of(s@) is None && e.0@ == s@,
            },
    {
        if s.unicode_len() != 1 {
            let mut t = String::new();
            push_all(&mut t, s);
            return Err(ParseLegalDepartmentError(t));
        }
        let c = s.get_char(0);
        if c == 'A' {
            Ok(LegalDepartmentAbbreviation::A)
        } else if c == 'B' {
            Ok(LegalDepartmentAbbreviation::B)
        } else if c == 'C' {
            Ok(LegalDepartmentAbbreviation::C)
        } else if c == 'D' {
            Ok(LegalDepartmentAbbreviation::D)
        } else if c == 'E' {
            Ok(LegalDepartmentAbbreviation::E)
        } else if c == 'F' {
            Ok(LegalDepartmentAbbreviation::F)
        } else if c == 'K' {
            Ok(LegalDepartmentAbbreviation::K)
        } else if c == 'L' {
            Ok(LegalDepartmentAbbreviation::L)
        } else {
            let mut t = String::new();
            push_all(&mut t, s);
            Err(ParseLegalDepartmentError(t))
        }
    }
}

} // verus!
