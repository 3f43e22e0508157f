use nlwkn::document::Warning;
use nlwkn::enrich::{enrich, sanitize_row, CadenzaTableRowInner};
use nlwkn::model::{LegalDepartment, LegalDepartmentAbbreviation, UsageLocation, WaterRight};

fn row(no: u64, location_no: u64) -> CadenzaTableRowInner {
    CadenzaTableRowInner {
        no,
        rights_holder: None,
        valid_until: None,
        status: None,
        valid_from: None,
        legal_departments: None,
        legal_title: None,
        water_authority: None,
        granting_authority: None,
        date_of_change: None,
        file_reference: None,
        external_identifier: None,
        subject: None,
        address: None,
        usage_location_no: location_no,
        usage_location: None,
        legal_department: "A".to_string(),
        legal_purpose: None,
        county: None,
        river_basin: None,
        groundwater_body: None,
        flood_area: None,
        water_protection_area: None,
        utm_easting: None,
        utm_northing: None,
    }
}

fn right_with(locations: Vec<UsageLocation>) -> WaterRight {
    let mut water_right = WaterRight::new(1101);
    let mut department = LegalDepartment::new(LegalDepartmentAbbreviation::A, "Entnahme".to_string());
    department.usage_locations = locations;
    water_right.insert_department(department);
    water_right
}

#[test]
fn fields_come_from_the_first_row_that_has_them() {
    let mut water_right = right_with(vec![]);
    water_right.status = Some("aktiv".to_string());
    let mut a = row(1101, 1);
    a.status = Some("inaktiv".to_string());
    a.address = None;
    let mut b = row(1101, 2);
    b.rights_holder = Some("Körtke".to_string());
    b.address = Some("Gifhorn".to_string());
    let mut other = row(9, 3);
    other.legal_title = Some("Erlaubnis".to_string());
    let (enriched, _) = enrich(&mut water_right, &vec![other, a, b]);
    assert!(enriched);
    assert_eq!(water_right.status.as_deref(), Some("aktiv"));
    assert_eq!(water_right.holder.as_deref(), Some("Körtke"));
    assert_eq!(water_right.address.as_deref(), Some("Gifhorn"));
    assert_eq!(water_right.legal_title, None);
}

#[test]
fn locations_match_by_name_then_by_coordinates() {
    let mut by_name = UsageLocation::new();
    by_name.name = Some("OW-Entnahme".to_string());
    let mut by_coordinates = UsageLocation::new();
    by_coordinates.utm_easting = Some(32603873);
    by_coordinates.utm_northing = Some(5852015);
    let mut unmatched = UsageLocation::new();
    unmatched.name = Some("fehlt".to_string());
    unmatched.utm_easting = Some(0);
    let mut water_right = right_with(vec![by_name, by_coordinates, unmatched]);

    let mut r1 = row(1101, 101);
    r1.usage_location = Some("OW-Entnahme".to_string());
    r1.legal_purpose = Some("A70 Speisung von Teichen".to_string());
    r1.county = Some("Gifhorn".to_string());
    let mut r2 = row(1101, 102);
    r2.utm_easting = Some(32603873);
    r2.utm_northing = Some(5852015);
    r2.river_basin = Some("Elbe/Labe".to_string());
    let r3 = row(1101, 103);

    let (enriched, warnings) = enrich(&mut water_right, &vec![r1, r2, r3]);
    assert!(enriched);
    let locations = &water_right.legal_departments[0].usage_locations;
    assert_eq!(locations[0].no, Some(101));
    assert_eq!(locations[0].legal_purpose, Some(("A70".to_string(), "Speisung von Teichen".to_string())));
    assert_eq!(locations[0].county.as_deref(), Some("Gifhorn"));
    assert_eq!(locations[1].no, Some(102));
    assert_eq!(locations[1].river_basin.as_deref(), Some("Elbe/Labe"));
    assert_eq!(locations[2].no, None);
    assert_eq!(locations[2].utm_easting, None);
    assert_eq!(
        warnings,
        vec![
            Warning::CouldNotFindUsageLocation { water_right_no: 1101 },
            Warning::MissingLocations { water_right_no: 1101, missing_locations: vec![103] },
        ]
    );
}

#[test]
fn rows_of_other_rights_change_nothing() {
    let mut water_right = right_with(vec![UsageLocation::new()]);
    let (enriched, warnings) = enrich(&mut water_right, &vec![row(5, 1)]);
    assert!(!enriched);
    assert_eq!(warnings, vec![Warning::CouldNotFindUsageLocation { water_right_no: 1101 }]);
    assert_eq!(water_right.holder, None);
}

#[test]
fn zero_coordinates_from_rows_are_absent() {
    let mut location = UsageLocation::new();
    location.name = Some("x".to_string());
    let mut water_right = right_with(vec![location]);
    let mut r = row(1101, 1);
    r.usage_location = Some("x".to_string());
    r.utm_easting = Some(0);
    r.utm_northing = Some(5852015);
    let (_, warnings) = enrich(&mut water_right, &vec![r]);
    assert!(warnings.is_empty());
    let location = &water_right.legal_departments[0].usage_locations[0];
    assert_eq!(location.utm_easting, None);
    assert_eq!(location.utm_northing, Some(5852015));
}

#[test]
fn a_row_serves_one_location_and_the_last_row_of_a_number_counts() {
    let mut a = UsageLocation::new();
    a.name = Some("Brunnen".to_string());
    let mut b = UsageLocation::new();
    b.name = Some("Brunnen".to_string());
    let mut water_right = right_with(vec![a, b]);
    let mut first = row(1101, 7);
    first.usage_location = Some("Brunnen".to_string());
    first.county = Some("alt".to_string());
    let mut second = row(1101, 7);
    second.usage_location = Some("Brunnen".to_string());
    second.county = Some("neu".to_string());
    let (_, warnings) = enrich(&mut water_right, &vec![first, second]);
    let locations = &water_right.legal_departments[0].usage_locations;
    assert_eq!(locations[0].county.as_deref(), Some("neu"));
    assert_eq!(locations[1].county, None);
    assert_eq!(warnings, vec![Warning::CouldNotFindUsageLocation { water_right_no: 1101 }]);
}

#[test]
fn row_texts_are_made_plain() {
    let mut r = row(1, 2);
    r.county = Some("  Gifhorn ".to_string());
    r.subject = Some("-".to_string());
    r.legal_department = " A ".to_string();
    sanitize_row(&mut r);
    assert_eq!(r.county.as_deref(), Some("Gifhorn"));
    assert_eq!(r.subject, None);
    assert_eq!(r.legal_department, " A ");
}
