use gaeb_toolkit::decimal::Decimal;
use gaeb_toolkit::four_part_parser::parse_text;
use gaeb_toolkit::parser::parse_decimal;

#[test]
fn parser_parses_german_decimal() {
    assert_eq!(parse_decimal(Some("1.263,50")), Some(Decimal::new(126350, 2)));
    assert_eq!(parse_decimal(Some("361,000")), Some(Decimal::new(361000, 3)));
}

#[test]
fn parser_builds_hierarchy_from_position_oz() {
    let text = "01 Logistik\n01.01 Vorbereitung\n01.01.02 Schutz\n01.01.02.030 361,000 qm 3,50 € 1.263,50 €\nBoden schützen\n";
    let boq = parse_text("test.txt", text).unwrap();
    assert_eq!(boq.roots.len(), 1);
    assert_eq!(boq.roots[0].oz, "01");
    assert_eq!(boq.roots[0].title, "Logistik");
    assert_eq!(boq.roots[0].children[0].oz, "01.01");
    assert_eq!(boq.roots[0].children[0].title, "Vorbereitung");
    assert_eq!(boq.roots[0].children[0].children[0].oz, "01.01.02");
    assert_eq!(boq.roots[0].children[0].children[0].title, "Schutz");
    assert_eq!(boq.roots[0].children[0].children[0].positions[0].oz, "01.01.02.030");
}

#[test]
fn parser_detects_position_without_prices() {
    let text = "01.01.01.120 Verkehrsrechtl. Beantragung Baustelleneinrichtung\nPosition entfällt\n";
    let boq = parse_text("test.txt", text).unwrap();
    let position = &boq.roots[0].children[0].children[0].positions[0];
    assert_eq!(position.oz, "01.01.01.120");
    assert_eq!(position.short_text, "Verkehrsrechtl. Beantragung Baustelleneinrichtung");
    assert_eq!(position.long_text, "Position entfällt");
    assert!(boq.warnings.is_empty());
}

#[test]
fn parser_ignores_unreferenced_headings() {
    let text = "01 Verwaister Bereich\n02.03.04.010 1,000 St 5,00 € 5,00 €\nPosition\n";
    let boq = parse_text("test.txt", text).unwrap();
    assert_eq!(boq.roots.len(), 1);
    assert_eq!(boq.roots[0].oz, "02");
    assert_eq!(boq.roots[0].children[0].oz, "02.03");
    assert_eq!(boq.roots[0].children[0].children[0].oz, "02.03.04");
}
