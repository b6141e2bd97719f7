use gaeb_toolkit::decimal::Decimal;
use gaeb_toolkit::parser::{parse_decimal, parse_text};
use gaeb_toolkit::patterns::{Pattern, TRAILING_QUANTITY};
use gaeb_toolkit::{BillOfQuantities, Position};

fn first_position(boq: &BillOfQuantities) -> &Position {
    &boq.roots[0].children[0].children[0].positions[0]
}

#[test]
fn parser_v2_parses_german_decimal() {
    assert_eq!(
        parse_decimal(Some("1.263,50")),
        Some(Decimal::new(126350, 2))
    );
    assert_eq!(
        parse_decimal(Some("361,000")),
        Some(Decimal::new(361000, 3))
    );
}

#[test]
fn parser_v2_builds_hierarchy_from_position_oz() {
    let text = "01 Logistik\n01.01 Vorbereitung\n01.01.02 Schutz\n01.01.02.030 361,000 qm 3,50 € 1.263,50 €\nBoden schützen\n";
    let boq = parse_text("test.txt", text).unwrap();
    assert_eq!(boq.roots.len(), 1);
    assert_eq!(boq.roots[0].oz, "01");
    assert_eq!(boq.roots[0].title, "Logistik");
    assert_eq!(boq.roots[0].children[0].oz, "01.01");
    assert_eq!(boq.roots[0].children[0].title, "Vorbereitung");
    assert_eq!(boq.roots[0].children[0].children[0].oz, "01.01.02");
    assert_eq!(boq.roots[0].children[0].children[0].title, "Schutz");
    assert_eq!(first_position(&boq).oz, "01.01.02.030");
}

#[test]
fn parses_tga_position_with_short_oz_and_trailing_dot() {
    assert!(Pattern::new(TRAILING_QUANTITY)
        .matches("1.000,000 m ......................... ........................."));
    let text = "1. Los Elektroinstallation\n1.1. Titel Kabel und Leitungen\n1.1.10. NYM-J 3x1,5 mm²\nKunststoff-Mantelleitung liefern und verlegen\n10 Rundleiter 16 mm² Cu\n3 Stromkreise anschließen\n7235. Gehäuse mit wirksamer Auskleidung\n1.000,000 m ......................... .........................\n";
    let boq = parse_text("test.txt", text).unwrap();

    assert_eq!(boq.roots.len(), 1);
    assert_eq!(boq.roots[0].oz, "1");
    assert_eq!(boq.roots[0].title, "Los Elektroinstallation");
    assert_eq!(boq.roots[0].children[0].oz, "1.1");
    assert_eq!(boq.roots[0].children[0].title, "Titel Kabel und Leitungen");
    let position = &boq.roots[0].children[0].positions[0];
    assert_eq!(position.oz, "1.1.10");
    assert_eq!(position.quantity, Some(Decimal::new(1000000, 3)));
    assert_eq!(position.unit.as_deref(), Some("m"));
    assert_eq!(position.unit_price, None);
    assert_eq!(position.total_price, None);
    assert_eq!(position.short_text, "NYM-J 3x1,5 mm²");
    assert_eq!(
        position.long_text,
        "Kunststoff-Mantelleitung liefern und verlegen\n10 Rundleiter 16 mm² Cu\n3 Stromkreise anschließen\n7235. Gehäuse mit wirksamer Auskleidung"
    );
}

#[test]
fn does_not_treat_numbered_preamble_as_short_position_oz() {
    let text = "1.1 Grundlage der Ausschreibung\n1.2 Vertragsbedingungen\n2.3.2.1 Unterabschnitt\n28.10.2025 16:20 Uhr\n";
    let boq = parse_text("test.txt", text).unwrap();
    assert!(boq.roots.is_empty());
}

#[test]
fn parses_tga_price_only_quantity_row() {
    let text = "1.1.20. Bedarfsposition\n1,000 Stck ......................... Nur Einh.-Pr.\n";
    let boq = parse_text("test.txt", text).unwrap();
    let position = &boq.roots[0].children[0].positions[0];

    assert_eq!(position.quantity, Some(Decimal::new(1000, 3)));
    assert_eq!(position.unit.as_deref(), Some("Stck"));
    assert!(position.provisional);
    assert!(position.price_only);
}

#[test]
fn parses_three_part_oz_without_trailing_dot() {
    let text =
        "02.01 Bereich\n02.01.0001 Randdämmstreifen abschneiden\n520,000 m² 9,40 4.888,00\n";
    let boq = parse_text("test.txt", text).unwrap();
    let position = &boq.roots[0].children[0].positions[0];

    assert_eq!(position.oz, "02.01.0001");
    assert_eq!(position.quantity, Some(Decimal::new(520000, 3)));
    assert_eq!(position.unit.as_deref(), Some("m²"));
    assert_eq!(position.unit_price, Some(Decimal::new(940, 2)));
    assert_eq!(position.total_price, Some(Decimal::new(488800, 2)));
}

#[test]
fn parses_six_part_oz_and_inline_quantity() {
    let text = "6.35.10.1.1. Trockenbau\n6.35.10.1.1.10 GK-Doppelständerwand\nEinbauort: Obergeschoss 398,000 m2 71,84 28.592,32\n";
    let boq = parse_text("test.txt", text).unwrap();
    let position = &boq.roots[0].children[0].children[0].children[0].children[0].positions[0];

    assert_eq!(position.oz, "6.35.10.1.1.10");
    assert_eq!(position.quantity, Some(Decimal::new(398000, 3)));
    assert_eq!(position.unit.as_deref(), Some("m2"));
    assert_eq!(position.unit_price, Some(Decimal::new(7184, 2)));
    assert_eq!(position.total_price, Some(Decimal::new(2859232, 2)));
    assert_eq!(position.short_text, "GK-Doppelständerwand");
    assert_eq!(position.long_text, "Einbauort: Obergeschoss");
}

#[test]
fn parses_integer_quantity_with_empty_price_columns() {
    let text = "01.01.01.0010 Einrichten Baustelle\nBeschreibung\n1. Brandschutz beachten\n1 St ...................... nur EP\n";
    let boq = parse_text("test.txt", text).unwrap();
    let position = first_position(&boq);

    assert_eq!(position.quantity, Some(Decimal::new(1, 0)));
    assert_eq!(position.unit.as_deref(), Some("St"));
    assert!(position.price_only);
    assert!(position.long_text.contains("1. Brandschutz beachten"));
}

#[test]
fn parses_negative_and_required_prices() {
    let text = "01.03.0020 Minderpreis\nGKBI-Platte 3.794,000 m2 -1,50 -5.691,00\n01.03.0030 Bedarfsposition\nBeschreibung 1,000 m2 10,60 Bedarf 10,60\n";
    let boq = parse_text("test.txt", text).unwrap();
    let positions = &boq.roots[0].children[0].positions;

    assert_eq!(positions[0].unit_price, Some(Decimal::new(-150, 2)));
    assert_eq!(positions[0].total_price, Some(Decimal::new(-569100, 2)));
    assert_eq!(positions[1].unit_price, Some(Decimal::new(1060, 2)));
    assert_eq!(positions[1].total_price, Some(Decimal::new(1060, 2)));
}

#[test]
fn removes_page_frames_and_subtotals_from_positions() {
    let text = "1.1.10. Leistung\nBeschreibung\n1,000 St ......................... .........................\nDruckdatum: 04.06.2026 Seite: 19 von 276\nMollmann Beratende Ingenieure GmbH Poststraße 13\nT. +49 6151 39728\nAngebotsaufforderung_MBI\nProjekt: 26004 Beispiel\nLV: 10 TGA\nOZ Leistungsbeschreibung Menge ME Einheitspreis Gesamtbetrag\nin EUR in EUR\nSumme 1.1. Titel .................\n1.2.10. Nächste Leistung\n2,000 St ......................... .........................\n";
    let boq = parse_text("test.txt", text).unwrap();
    let first = &boq.roots[0].children[0].positions[0];

    assert_eq!(first.long_text, "Beschreibung");
    assert!(!first.long_text.contains("Summe"));
    assert!(!first.long_text.contains("Druckdatum"));
    assert_eq!(boq.roots[0].children[1].positions.len(), 1);
}

#[test]
fn parser_v2_detects_position_without_prices() {
    let text =
        "01.01.01.120 Verkehrsrechtl. Beantragung Baustelleneinrichtung\nPosition entfällt\n";
    let boq = parse_text("test.txt", text).unwrap();
    let position = first_position(&boq);
    assert_eq!(position.oz, "01.01.01.120");
    assert_eq!(
        position.short_text,
        "Verkehrsrechtl. Beantragung Baustelleneinrichtung"
    );
    assert_eq!(position.long_text, "Position entfällt");
    assert!(boq.warnings.is_empty());
}

#[test]
fn parses_multiline_price_data() {
    let text = "01.01.01.020\n80,000 lfm\n38,70 €\n3.096,00 €\nBauzaun, Stahlrahmen mobil\nBeschreibung\n";
    let boq = parse_text("test.txt", text).unwrap();
    let position = first_position(&boq);
    assert_eq!(position.quantity, Some(Decimal::new(80000, 3)));
    assert_eq!(position.unit.as_deref(), Some("lfm"));
    assert_eq!(position.unit_price, Some(Decimal::new(3870, 2)));
    assert_eq!(position.total_price, Some(Decimal::new(309600, 2)));
    assert_eq!(position.short_text, "Bauzaun, Stahlrahmen mobil");
    assert_eq!(position.long_text, "Beschreibung");
}

#[test]
fn keeps_position_across_page_break() {
    let text = "01.01.01.070 10,000 StMt 25,00 € 250,00 €\nBauzaun-Tor\nFortsetzung auf nächster Seite\n\u{000C}Fortsetzung von vorheriger Seite\nvorhalten und unterhalten\n";
    let boq = parse_text("test.txt", text).unwrap();
    let position = first_position(&boq);
    assert_eq!(position.page_from, Some(1));
    assert_eq!(position.page_to, Some(2));
    assert_eq!(position.short_text, "Bauzaun-Tor");
    assert_eq!(position.long_text, "vorhalten und unterhalten");
}

#[test]
fn parser_v2_ignores_unreferenced_headings() {
    let text = "01 Verwaister Bereich\n02.03.04.010 1,000 St 5,00 € 5,00 €\nPosition\n";
    let boq = parse_text("test.txt", text).unwrap();
    assert_eq!(boq.roots.len(), 1);
    assert_eq!(boq.roots[0].oz, "02");
    assert_eq!(boq.roots[0].children[0].oz, "02.03");
    assert_eq!(boq.roots[0].children[0].children[0].oz, "02.03.04");
}
