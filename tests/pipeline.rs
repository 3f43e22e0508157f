use nlwkn::document::{finish_water_right, normalize_date, parse_document, Warning};
use nlwkn::grouped::GroupedKeyValueRepr;
use nlwkn::helper_types::{compare_durations, parse_rate, Duration, OrFallback};
use nlwkn::key_value::{KeyValuePair, KeyValueRepr};
use nlwkn::model::{LegalDepartmentAbbreviation, UsageLocation, WaterRight};
use nlwkn::numbers::Decimal;
use nlwkn::parse::{
    parse_allowance_value, parse_departments, parse_location_entry, parse_root, read_land_record,
    ParseError,
};
use nlwkn::text_block::{assemble_page, unexpected_events, DrawingEvent, TextBlockRepr};

fn pair(key: &str, values: &[&str]) -> KeyValuePair {
    (key.to_string(), values.iter().map(|v| v.to_string()).collect())
}

fn whole(n: u64) -> Decimal {
    Decimal { negative: false, digits: n, scale: 0 }
}

fn read(pairs: Vec<KeyValuePair>) -> Result<WaterRight, ParseError> {
    let grouped = GroupedKeyValueRepr::from_pairs(KeyValueRepr(pairs));
    let mut water_right = WaterRight::new(1);
    parse_root(&grouped.root, &mut water_right)?;
    parse_departments(&grouped.departments, &mut water_right)?;
    water_right.annotation = grouped.annotation;
    Ok(water_right)
}

#[test]
fn department_with_one_location() {
    let water_right = read(vec![
        pair("Wasserbuchbehörde", &["X"]),
        pair("Abteilung:", &["A Entnahme..."]),
        pair("Nutzungsort Lfd. Nr.:", &["1 (aktiv, real)"]),
        pair("Bezeichnung:", &["Brunnen 1"]),
    ])
    .unwrap();
    assert_eq!(water_right.water_authority.as_deref(), Some("X"));
    assert_eq!(water_right.legal_departments.len(), 1);
    let department = &water_right.legal_departments[0];
    assert_eq!(department.abbreviation, LegalDepartmentAbbreviation::A);
    assert_eq!(department.description, "Entnahme...");
    assert_eq!(department.usage_locations.len(), 1);
    let location = &department.usage_locations[0];
    assert_eq!(location.serial.as_deref(), Some("1"));
    assert_eq!(location.active, Some(true));
    assert_eq!(location.real, Some(true));
    assert_eq!(location.name.as_deref(), Some("Brunnen 1"));
}

#[test]
fn withdrawal_rate_goes_into_its_record() {
    let mut location = UsageLocation::new();
    parse_allowance_value(&"Entnahmemenge: 12 m³/2a".to_string(), &mut location, LegalDepartmentAbbreviation::A).unwrap();
    assert_eq!(location.withdrawal_rates.entries.len(), 1);
    match &location.withdrawal_rates.entries[0] {
        OrFallback::Expected(rate) => {
            assert_eq!(rate.value, whole(12));
            assert_eq!(rate.measurement, "m³");
            assert_eq!(rate.per, Duration::Years(whole(2)));
        }
        OrFallback::Fallback(s) => panic!("fell back to {s:?}"),
    }
}

#[test]
fn withdrawal_rate_through_its_key() {
    let mut location = UsageLocation::new();
    parse_location_entry(
        &"Erlaubniswert:".to_string(),
        &vec!["Entnahmemenge 12 m³/2a".to_string()],
        &mut location,
        LegalDepartmentAbbreviation::E,
    )
    .unwrap();
    assert_eq!(location.withdrawal_rates.entries.len(), 1);
    assert!(matches!(location.withdrawal_rates.entries[0], OrFallback::Expected(_)));
}

#[test]
fn land_record_typed_or_fallback() {
    match read_land_record("Foo12") {
        OrFallback::Expected(record) => {
            assert_eq!(record.district, "Foo");
            assert_eq!(record.field, 12);
        }
        OrFallback::Fallback(s) => panic!("fell back to {s:?}"),
    }
    match read_land_record("12Foo") {
        OrFallback::Fallback(s) => assert_eq!(s, "12Foo"),
        OrFallback::Expected(_) => panic!("12Foo is no land record"),
    }
}

#[test]
fn land_record_fallback_keeps_text_without_spaces() {
    match read_land_record("Gemarkung ohne Nummer") {
        OrFallback::Fallback(s) => assert_eq!(s, "GemarkungohneNummer"),
        OrFallback::Expected(_) => panic!("no number"),
    }
    match read_land_record("Foo 12") {
        OrFallback::Expected(record) => assert_eq!((record.district.as_str(), record.field), ("Foo", 12)),
        OrFallback::Fallback(_) => panic!("spaces are removed first"),
    }
    match read_land_record("Foo99999999999") {
        OrFallback::Fallback(s) => assert_eq!(s, "Foo99999999999"),
        OrFallback::Expected(_) => panic!("field number too large"),
    }
}

#[test]
fn trailing_labels_become_the_annotation() {
    let grouped = GroupedKeyValueRepr::from_pairs(KeyValueRepr(vec![
        pair("Wasserbuchbehörde", &["X"]),
        pair("Bemerkung:", &[]),
        pair("wichtig", &[]),
    ]));
    assert_eq!(grouped.annotation.as_deref(), Some("Bemerkung: wichtig"));
    assert_eq!(grouped.root, vec![pair("Wasserbuchbehörde", &["X"])]);
    assert!(grouped.departments.is_empty());
}

#[test]
fn segmentation_splits_departments_and_locations() {
    let grouped = GroupedKeyValueRepr::from_pairs(KeyValueRepr(vec![
        pair("Kennziffer", &["ext (aktiv)"]),
        pair("Abteilung:", &["A - ", "Entnahme"]),
        pair("Nutzungsort Lfd. Nr.:", &["1 (aktiv, real)"]),
        pair("Bezeichnung:", &["a"]),
        pair("Nutzungsort Lfd. Nr.:", &["2 (inaktiv, virtuell)"]),
        pair("Abteilung:", &["E - Grundwasser"]),
        pair("Bezeichnung:", &["b"]),
    ]));
    assert_eq!(grouped.root.len(), 1);
    assert_eq!(grouped.departments.len(), 2);
    assert_eq!(grouped.departments[0].0, "A - Entnahme");
    assert_eq!(grouped.departments[0].1.len(), 2);
    assert_eq!(grouped.departments[0].1[0].len(), 2);
    assert_eq!(grouped.departments[0].1[1], vec![pair("Nutzungsort Lfd. Nr.:", &["2 (inaktiv, virtuell)"])]);
    assert_eq!(grouped.departments[1].1, vec![vec![pair("Bezeichnung:", &["b"])]]);
    assert_eq!(grouped.annotation, None);
}

#[test]
fn every_location_after_the_first_starts_at_its_key() {
    let grouped = GroupedKeyValueRepr::from_pairs(KeyValueRepr(vec![
        pair("Abteilung:", &["B - x"]),
        pair("Gewässer:", &["See"]),
        pair("Nutzungsort Lfd. Nr.:", &["1 (aktiv, real)"]),
        pair("Nutzungsort Lfd. Nr.:", &["2 (aktiv, real)"]),
    ]));
    let locations = &grouped.departments[0].1;
    assert_eq!(locations.len(), 3);
    for location in &locations[1..] {
        assert_eq!(location[0].0, "Nutzungsort Lfd. Nr.:");
    }
}

#[test]
fn empty_department_keeps_an_empty_location() {
    let grouped = GroupedKeyValueRepr::from_pairs(KeyValueRepr(vec![pair("Abteilung:", &["K - x"])]));
    assert_eq!(grouped.departments.len(), 1);
    assert_eq!(grouped.departments[0].1, vec![Vec::<KeyValuePair>::new()]);
}

#[test]
fn empty_locations_can_be_dropped() {
    let mut grouped = GroupedKeyValueRepr::from_pairs(KeyValueRepr(vec![
        pair("Abteilung:", &["K - x"]),
        pair("Abteilung:", &["L - y"]),
        pair("Bezeichnung:", &["b"]),
    ]));
    grouped.drop_empty_locations();
    assert_eq!(grouped.departments[0].1, Vec::<Vec<KeyValuePair>>::new());
    assert_eq!(grouped.departments[1].1, vec![vec![pair("Bezeichnung:", &["b"])]]);
    assert_eq!(grouped.departments[1].0, "L - y");
}

#[test]
fn segmenting_a_flattened_record_gives_it_back() {
    let pairs = vec![
        pair("Wasserbuchbehörde", &["X"]),
        pair("Abteilung:", &["A - Entnahme"]),
        pair("Nutzungsort Lfd. Nr.:", &["1 (aktiv, real)"]),
        pair("Bezeichnung:", &["a"]),
        pair("Nutzungsort Lfd. Nr.:", &["2 (aktiv, real)"]),
        pair("Bemerkung:", &[]),
    ];
    let first = GroupedKeyValueRepr::from_pairs(KeyValueRepr(pairs));
    let mut flat = first.root.clone();
    for (label, locations) in &first.departments {
        flat.push(("Abteilung:".to_string(), vec![label.clone()]));
        for location in locations {
            flat.extend(location.iter().cloned());
        }
    }
    if let Some(a) = &first.annotation {
        flat.push((a.clone(), vec![]));
    }
    let second = GroupedKeyValueRepr::from_pairs(KeyValueRepr(flat));
    assert_eq!(first.root, second.root);
    assert_eq!(first.departments, second.departments);
    assert_eq!(first.annotation, second.annotation);
}

#[test]
fn rate_grammar_reads_every_time_code() {
    let cases = [
        ("s", Duration::Seconds(whole(3))),
        ("m", Duration::Minutes(whole(3))),
        ("min", Duration::Minutes(whole(3))),
        ("h", Duration::Hours(whole(3))),
        ("d", Duration::Days(whole(3))),
        ("w", Duration::Weeks(whole(3))),
        ("wo", Duration::Weeks(whole(3))),
        ("M", Duration::Months(whole(3))),
        ("mo", Duration::Months(whole(3))),
        ("a", Duration::Years(whole(3))),
        ("y", Duration::Years(whole(3))),
    ];
    for (code, per) in cases {
        let rate = parse_rate(&format!("5 l/3{code}")).unwrap();
        assert_eq!(rate.per, per, "{code}");
        assert_eq!(rate.value, whole(5));
        assert_eq!(rate.measurement, "l");
    }
}

#[test]
fn durations_compare_by_length_in_seconds() {
    assert_eq!(Duration::Weeks(whole(1)), Duration::Days(whole(7)));
    assert_eq!(Duration::Minutes(Decimal { negative: false, digits: 15, scale: 1 }), Duration::Seconds(whole(90)));
    assert_ne!(Duration::Months(whole(1)), Duration::Days(whole(31)));
    assert_eq!(compare_durations(&Duration::Years(whole(2)), &Duration::Months(whole(12))), std::cmp::Ordering::Greater);
    assert_eq!(compare_durations(&Duration::Hours(whole(1)), &Duration::Minutes(whole(61))), std::cmp::Ordering::Less);
    let huge = Decimal { negative: false, digits: u64::MAX, scale: 40 };
    assert_eq!(compare_durations(&Duration::Seconds(huge), &Duration::Seconds(whole(1))), std::cmp::Ordering::Less);
}

#[test]
fn rate_factor_defaults_to_one() {
    let rate = parse_rate("1.5 m³/h").unwrap();
    assert_eq!(rate.value, Decimal { negative: false, digits: 15, scale: 1 });
    assert_eq!(rate.per, Duration::Hours(whole(1)));
    let rate = parse_rate("2 m³/1,5d").unwrap();
    assert_eq!(rate.per, Duration::Days(whole(1)));
}

#[test]
fn rate_grammar_rejects_other_shapes() {
    assert!(parse_rate("12").is_none());
    assert!(parse_rate("x m³/a").is_none());
    assert!(parse_rate("12 m³").is_none());
    assert!(parse_rate("12 /a").is_none());
    assert!(parse_rate("12 m³/12").is_none());
    assert!(parse_rate("12 m³/2q").is_none());
}

#[test]
fn rate_that_is_no_rate_is_kept_as_text() {
    let mut location = UsageLocation::new();
    parse_allowance_value(&"Förderleistung 12 m³/Woche".to_string(), &mut location, LegalDepartmentAbbreviation::A).unwrap();
    match &location.pumping_rates.entries[0] {
        OrFallback::Fallback(s) => assert_eq!(s, "12 m³/Woche"),
        OrFallback::Expected(_) => panic!("Woche is no time code"),
    }
}

#[test]
fn rates_of_equal_span_count_once_and_are_ordered() {
    let mut location = UsageLocation::new();
    for value in ["Entnahmemenge 5 m³/a", "Entnahmemenge 1 m³/s", "Entnahmemenge 7 m³/365d", "Entnahmemenge 9 l/h"] {
        parse_allowance_value(&value.to_string(), &mut location, LegalDepartmentAbbreviation::A).unwrap();
    }
    let spans: Vec<Duration> = location
        .withdrawal_rates
        .entries
        .iter()
        .map(|e| match e {
            OrFallback::Expected(r) => r.per,
            OrFallback::Fallback(_) => panic!("all are rates"),
        })
        .collect();
    assert_eq!(spans, vec![Duration::Seconds(whole(1)), Duration::Hours(whole(1)), Duration::Years(whole(1))]);
}

#[test]
fn dam_targets_and_injection_limits() {
    let mut location = UsageLocation::new();
    parse_allowance_value(&"Stauziel, bezogen auf NN 12.5 m".to_string(), &mut location, LegalDepartmentAbbreviation::C).unwrap();
    let default = location.dam_target_levels.default.as_ref().unwrap();
    assert_eq!(default.value, Decimal { negative: false, digits: 125, scale: 1 });
    assert_eq!(default.unit, "m");
    assert!(!location.dam_target_levels.is_empty());

    parse_allowance_value(&"Phosphor gesamt 2 mg/l".to_string(), &mut location, LegalDepartmentAbbreviation::B).unwrap();
    assert_eq!(location.injection_limits.len(), 1);
    assert_eq!(location.injection_limits[0].0, "Phosphor gesamt");
    assert_eq!(location.injection_limits[0].1.value, whole(2));

    let err = parse_allowance_value(&"Phosphor gesamt 2 mg/l".to_string(), &mut location, LegalDepartmentAbbreviation::A);
    assert!(matches!(err, Err(ParseError::UnknownAllowanceKind(k)) if k == "Phosphor gesamt"));
    let err = parse_allowance_value(&"Beregnungsfläche viel ha".to_string(), &mut location, LegalDepartmentAbbreviation::A);
    assert!(matches!(err, Err(ParseError::InvalidNumber(t)) if t == "viel"));
    let err = parse_allowance_value(&"Zusatzregen".to_string(), &mut location, LegalDepartmentAbbreviation::A);
    assert!(matches!(err, Err(ParseError::IncompleteAllowance(_))));
}

#[test]
fn usage_location_fields() {
    let mut location = UsageLocation::new();
    let dept = LegalDepartmentAbbreviation::E;
    let entries = vec![
        pair("Rechtszweck:", &["A70 Speisung von Teichen"]),
        pair("East und North:", &["32603873"]),
        pair("(ETRS89/UTM 32N)", &["5852015"]),
        pair("Top. Karte 1:25.000:", &["30 28", "Bokel"]),
        pair("Gemeindegebiet:", &["101", "Gifhorn"]),
        pair("Einzugsgebietskennzahl:", &["5 9"]),
        pair("Gewässer:", &[" - "]),
        pair("Bezeichnung:", &["zwei\nZeilen"]),
        pair("Flurstück:", &["1/34556"]),
    ];
    for (key, values) in &entries {
        parse_location_entry(key, values, &mut location, dept).unwrap();
    }
    assert_eq!(location.legal_purpose, Some(("A70".to_string(), "Speisung von Teichen".to_string())));
    assert_eq!(location.utm_easting, Some(32603873));
    assert_eq!(location.utm_northing, Some(5852015));
    assert_eq!(location.map_excerpt, Some(nlwkn::helper_types::SingleOrPair::Pair(3028, "Bokel".to_string())));
    assert_eq!(location.municipal_area, Some((101, "Gifhorn".to_string())));
    assert_eq!(location.catchment_area_code, Some(nlwkn::helper_types::SingleOrPair::Single(59)));
    assert_eq!(location.water_body, None);
    assert_eq!(location.name.as_deref(), Some("zwei Zeilen"));
    assert_eq!(location.plot.as_deref(), Some("1/34556"));
}

#[test]
fn usage_location_errors() {
    let mut location = UsageLocation::new();
    let dept = LegalDepartmentAbbreviation::A;
    let r = parse_location_entry(&"Unbekannt:".to_string(), &vec![], &mut location, dept);
    assert!(matches!(r, Err(ParseError::InvalidLocationEntry(k)) if k == "Unbekannt:"));
    let r = parse_location_entry(&"Nutzungsort Lfd. Nr.:".to_string(), &vec!["1 aktiv real".to_string()], &mut location, dept);
    assert!(matches!(r, Err(ParseError::InvalidLocationHeader(_))));
    let r = parse_location_entry(&"Nutzungsort Lfd. Nr.:".to_string(), &vec!["1 (a-b, real)".to_string()], &mut location, dept);
    assert!(matches!(r, Err(ParseError::InvalidLocationHeader(_))));
    let r = parse_location_entry(&"Nutzungsort Lfd. Nr.:".to_string(), &vec!["1 (aktiv,real)".to_string()], &mut location, dept);
    assert!(matches!(r, Err(ParseError::InvalidLocationHeader(_))));
    let r = parse_location_entry(&"Gemeindegebiet:".to_string(), &vec!["x".to_string(), "y".to_string()], &mut location, dept);
    assert!(matches!(r, Err(ParseError::InvalidNumber(t)) if t == "x"));
    let r = parse_location_entry(&"Gemeindegebiet:".to_string(), &vec!["101".to_string()], &mut location, dept);
    assert!(matches!(r, Err(ParseError::InvalidLocationEntry(_))));
    let r = parse_location_entry(&"Gemeindegebiet:".to_string(), &vec![], &mut location, dept);
    assert!(r.is_ok());
    assert_eq!(location.municipal_area, None);
}

#[test]
fn header_words_other_than_aktiv_and_real() {
    let mut location = UsageLocation::new();
    parse_location_entry(
        &"Nutzungsort Lfd. Nr.:".to_string(),
        &vec!["3a (inaktiv, virtuell)".to_string()],
        &mut location,
        LegalDepartmentAbbreviation::A,
    )
    .unwrap();
    assert_eq!(location.serial.as_deref(), Some("3a"));
    assert_eq!(location.active, Some(false));
    assert_eq!(location.real, Some(false));
}

#[test]
fn root_fields_and_errors() {
    let mut water_right = WaterRight::new(7);
    let root = vec![
        pair("Kennziffer", &["6630-01-1610 (Erlaubnis)"]),
        pair("erteilt am:", &["23.01.1989"]),
        pair("erstmalig ertellt am:", &["-"]),
        pair("abweichend", &["egal"]),
        pair("Betreff:", &["  Teich  "]),
    ];
    parse_root(&root, &mut water_right).unwrap();
    assert_eq!(water_right.status.as_deref(), Some("Erlaubnis"));
    assert_eq!(water_right.external_identifier.as_deref(), Some("6630-01-1610"));
    assert_eq!(water_right.valid_from.as_deref(), Some("23.01.1989"));
    assert_eq!(water_right.initially_granted, None);
    assert_eq!(water_right.subject.as_deref(), Some("Teich"));

    let r = parse_root(&vec![pair("Unsinn", &["x"])], &mut water_right);
    assert!(matches!(r, Err(ParseError::InvalidRootEntry(k)) if k == "Unsinn"));
    let r = parse_root(&vec![pair("Kennziffer", &[])], &mut water_right);
    assert!(matches!(r, Err(ParseError::InvalidRootEntry(_))));
    let r = parse_root(&vec![pair("Kennziffer", &["6630 x"])], &mut water_right);
    assert!(matches!(r, Err(ParseError::InvalidRootEntry(k)) if k == "Kennziffer"));
    let r = parse_root(&vec![pair("Kennziffer", &["x"])], &mut water_right);
    assert!(matches!(r, Err(ParseError::InvalidRootEntry(_))));
    let mut water_right = WaterRight::new(8);
    parse_root(&vec![pair("Kennziffer", &["(aktiv)"])], &mut water_right).unwrap();
    assert_eq!(water_right.status.as_deref(), Some("aktiv"));
    assert_eq!(water_right.external_identifier, None);
}

#[test]
fn department_label_errors() {
    let r = read(vec![pair("Abteilung:", &["Z - nichts"])]);
    assert!(matches!(r, Err(ParseError::UnknownDepartment(e)) if e.0 == "Z" && e.message() == "unknown legal department abbreviation Z"));
    let r = read(vec![pair("Abteilung:", &["A"])]);
    assert!(matches!(r, Err(ParseError::MissingDescription(_))));
}

#[test]
fn a_department_replaces_one_of_the_same_abbreviation() {
    let water_right = read(vec![
        pair("Abteilung:", &["A - eins"]),
        pair("Abteilung:", &["B - zwei"]),
        pair("Abteilung:", &["A - drei"]),
    ])
    .unwrap();
    assert_eq!(water_right.legal_departments.len(), 2);
    assert_eq!(water_right.legal_departments[0].description, "drei");
    assert_eq!(water_right.legal_departments[1].abbreviation, LegalDepartmentAbbreviation::B);
}

#[test]
fn abbreviations_are_single_letters() {
    assert_eq!(LegalDepartmentAbbreviation::from_str("L").unwrap(), LegalDepartmentAbbreviation::L);
    assert_eq!(LegalDepartmentAbbreviation::K.letter(), 'K');
    assert!(LegalDepartmentAbbreviation::from_str("AB").is_err());
}

#[test]
fn dates_are_rewritten_into_iso_form() {
    let mut date = Some("31.12.2009".to_string());
    assert!(normalize_date(&mut date));
    assert_eq!(date.as_deref(), Some("2009-12-31"));

    let mut date = Some("unbefristet".to_string());
    assert!(!normalize_date(&mut date));
    assert_eq!(date.as_deref(), Some("unbefristet"));

    let mut date = Some("1.2.3.4".to_string());
    assert!(!normalize_date(&mut date));

    let mut date = None;
    assert!(normalize_date(&mut date));
}

#[test]
fn finishing_cleans_annotation_authority_and_dates() {
    let mut water_right = WaterRight::new(42);
    water_right.annotation = Some("Bemerkung: wichtig".to_string());
    water_right.registering_authority = Some("Landkreis Gifhorn".to_string());
    water_right.valid_until = Some("unbefristet".to_string());
    water_right.valid_from = Some("23.01.1989".to_string());
    let warnings = finish_water_right(&mut water_right);
    assert_eq!(water_right.annotation.as_deref(), Some("wichtig"));
    assert_eq!(water_right.granting_authority.as_deref(), Some("Landkreis Gifhorn"));
    assert_eq!(water_right.valid_from.as_deref(), Some("1989-01-23"));
    assert_eq!(warnings, vec![Warning::InvalidDateFormat { water_right_no: 42 }]);

    let mut water_right = WaterRight::new(1);
    water_right.annotation = Some("Bemerkung:".to_string());
    finish_water_right(&mut water_right);
    assert_eq!(water_right.annotation, None);
}

fn label(x: u32, text: &[u8]) -> Vec<DrawingEvent> {
    block(x, b"F1", &[text])
}

fn block(x: u32, font: &[u8], texts: &[&[u8]]) -> Vec<DrawingEvent> {
    let mut events = vec![
        DrawingEvent::BeginText,
        DrawingEvent::SetPosition { x: Some(x), y: Some(700) },
        DrawingEvent::SetFont { family: Some(font.to_vec()), size_bits: Some(0x4120_0000) },
    ];
    for t in texts {
        events.push(DrawingEvent::ShowText(vec![t.to_vec()]));
    }
    events.push(DrawingEvent::EndText);
    events
}

#[test]
fn join_heuristic_joins_fragments() {
    let events = block(10, b"F2", &[b"Ent-", b"nahme", b"m\xb3/", b"a", b"Satz.", b"Neu;", b"mehr", b"", b"Ende"]);
    let blocks = assemble_page(&events);
    assert_eq!(blocks.len(), 1);
    assert_eq!(blocks[0].content.as_deref(), Some("Ent-nahme m³/a Satz.\nNeu;\nmehr Ende"));
    assert_eq!(blocks[0].x, Some(10));
    assert_eq!(blocks[0].font_family.as_deref(), Some("F2"));
    let again = assemble_page(&events);
    assert_eq!(again[0].content, blocks[0].content);
}

#[test]
fn first_position_font_and_colour_win() {
    let events = vec![
        DrawingEvent::BeginText,
        DrawingEvent::BeginText,
        DrawingEvent::SetPosition { x: Some(1), y: Some(2) },
        DrawingEvent::SetPosition { x: Some(3), y: Some(4) },
        DrawingEvent::SetFont { family: Some(b"F1".to_vec()), size_bits: None },
        DrawingEvent::SetFont { family: Some(b"F3".to_vec()), size_bits: None },
        DrawingEvent::SetFillColor { r_bits: 1, g_bits: 2, b_bits: 3 },
        DrawingEvent::SetFillColor { r_bits: 4, g_bits: 5, b_bits: 6 },
        DrawingEvent::ShowText(vec![]),
        DrawingEvent::EndText,
        DrawingEvent::EndText,
        DrawingEvent::ShowText(vec![b"lost".to_vec()]),
    ];
    let blocks = assemble_page(&events);
    assert_eq!(unexpected_events(&events), 3);
    assert_eq!(blocks.len(), 1);
    assert_eq!((blocks[0].x, blocks[0].y), (Some(1), Some(2)));
    assert_eq!(blocks[0].font_family.as_deref(), Some("F1"));
    assert_eq!(blocks[0].fill_color_bits, Some((1, 2, 3)));
    assert_eq!(blocks[0].content, None);
}

#[test]
fn text_is_decoded_from_the_single_byte_encoding() {
    let blocks = assemble_page(&block(0, b"F1", &[b"Wasserbuchbeh\xf6rde"]));
    assert_eq!(blocks[0].content.as_deref(), Some("Wasserbuchbehörde"));
}

#[test]
fn blocks_become_pairs_by_font() {
    let mut page1 = label(50, b"Wasserbuchbeh\xf6rde");
    page1.extend(block(200, b"F3", &[b"NLWKN"]));
    page1.extend(label(50, b"Bezeichnung:"));
    page1.extend(block(200, b"F2", &[b"Brunnen"]));
    page1.extend(block(300, b"F2", &[b"Nord"]));
    page1.extend(block(200, b"F9", &[b"ignored"]));
    let mut page2 = block(200, b"F2", &[b"am See"]);
    page2.extend(block(999, b"F2", &[b"dropped"]));
    page2.extend(label(50, b"Gew\xe4sser:"));
    let repr = TextBlockRepr::from_pages(&vec![page1, page2]);
    let kv = KeyValueRepr::from_blocks(repr).unwrap();
    assert_eq!(
        kv.0,
        vec![
            pair("Wasserbuchbehörde", &["NLWKN"]),
            pair("Bezeichnung:", &["Brunnen am See", "Nord"]),
            pair("Gewässer:", &[]),
        ]
    );
}

#[test]
fn block_without_position_fails() {
    let events = vec![
        DrawingEvent::BeginText,
        DrawingEvent::SetFont { family: Some(b"F1".to_vec()), size_bits: None },
        DrawingEvent::ShowText(vec![b"Kennziffer".to_vec()]),
        DrawingEvent::EndText,
    ];
    assert!(KeyValueRepr::from_blocks(TextBlockRepr::from_pages(&vec![events.clone()])).is_none());
    assert!(matches!(parse_document(1, &vec![events]), Err(ParseError::MissingPosition)));
}

#[test]
fn document_from_drawing_events() {
    let mut page = label(50, b"Wasserbuchbeh\xf6rde");
    page.extend(block(200, b"F3", &[b"X"]));
    page.extend(label(50, b"Abteilung:"));
    page.extend(block(200, b"F3", &[b"A - Entnahme von Wasser"]));
    page.extend(label(50, b"Nutzungsort Lfd. Nr.:"));
    page.extend(block(200, b"F3", &[b"1 (aktiv, real)"]));
    page.extend(label(50, b"Erlaubniswert:"));
    page.extend(block(200, b"F3", &[b"Entnahmemenge 12 m\xb3/2a"]));
    page.extend(label(50, b"Bemerkung:"));
    let water_right = parse_document(9, &vec![page]).unwrap();
    assert_eq!(water_right.no, 9);
    assert_eq!(water_right.water_authority.as_deref(), Some("X"));
    assert_eq!(water_right.annotation.as_deref(), Some("Bemerkung:"));
    let location = &water_right.legal_departments[0].usage_locations[0];
    assert_eq!(location.withdrawal_rates.entries.len(), 1);
    assert_eq!(water_right.legal_departments[0].description, "Entnahme von Wasser");
}
