use gaeb_toolkit::decimal::Decimal;
use gaeb_toolkit::layout_reference_cleanup::{
    append_reference, parse_occurrences, repair_indented_references, take_unpriced_position,
};
use gaeb_toolkit::pdf_cleanup::{parse_bold_short_texts, remove_reference_positions};
use gaeb_toolkit::placeholder_oz::{recover_from_text, sort_hierarchy};
use gaeb_toolkit::price_cleanup::repair_position;
use gaeb_toolkit::provisional_validation::validate_provisional_totals;
use gaeb_toolkit::provisional_xml::apply_to_xml;
use gaeb_toolkit::reference_cleanup::repair_positions;
use gaeb_toolkit::{BillOfQuantities, Node, Position};

#[test]
fn recovers_placeholder_positions_and_normalizes_oz() {
    let text = "02 Ausbauarbeiten\n02.06 Tapezierarbeiten\n02.06.__.010 1.621,000 qm 2,80 € 4.538,80 €\nGrundieren Wandflächen Tapetengrund\nBeschreibung\n02.06.__.020 1.627,000 qm 14,50 € 23.591,50 €\nMalervlies Wandflächen Neu\nSumme 02.06 Tapezierarbeiten 28.130,30 €\n";
    let mut boq = BillOfQuantities::new("test.pdf");
    let count = recover_from_text(text, &mut boq).unwrap();
    assert_eq!(count, 2);
    let title = &boq.roots[0].children[0];
    assert_eq!(title.oz, "02.06");
    assert_eq!(title.title, "Tapezierarbeiten");
    let placeholder = &title.children[0];
    assert_eq!(placeholder.oz, "02.06.00");
    assert_eq!(placeholder.positions[0].oz, "02.06.00.010");
    assert_eq!(placeholder.positions[1].oz, "02.06.00.020");
}

#[test]
fn sorts_placeholder_level_before_numbered_levels() {
    let mut nodes = vec![Node {
        oz: "02".into(),
        children: vec![Node {
            oz: "02.04".into(),
            children: vec![
                Node { oz: "02.04.01".into(), ..Node::default() },
                Node { oz: "02.04.00".into(), ..Node::default() },
                Node { oz: "02.04.02".into(), ..Node::default() },
            ],
            ..Node::default()
        }],
        ..Node::default()
    }];

    sort_hierarchy(&mut nodes);
    let children = &nodes[0].children[0].children;
    assert_eq!(children[0].oz, "02.04.00");
    assert_eq!(children[1].oz, "02.04.01");
    assert_eq!(children[2].oz, "02.04.02");
}

fn real_position(oz: &str, long_text: &str) -> Position {
    Position {
        oz: oz.into(),
        quantity: Some(Decimal::new(1, 0)),
        unit: Some("St".into()),
        unit_price: Some(Decimal::new(1, 0)),
        total_price: Some(Decimal::new(1, 0)),
        short_text: "Leistung".into(),
        long_text: long_text.into(),
        page_from: Some(1),
        page_to: Some(1),
        ..Position::default()
    }
}

#[test]
fn joins_oz_after_open_and_reference() {
    let mut positions = vec![
        real_position(
            "02.05.01.130",
            "Ausführung gemäß den Positionen 02.05.01.100 und",
        ),
        Position {
            oz: "02.05.01.110".into(),
            short_text: "einschließlich Nebenarbeiten".into(),
            page_from: Some(1),
            page_to: Some(1),
            ..Position::default()
        },
    ];

    repair_positions(&mut positions);
    assert_eq!(positions.len(), 1);
    assert!(positions[0].long_text.contains("02.05.01.110 einschließlich Nebenarbeiten"));
}

#[test]
fn joins_reference_in_sentence() {
    let mut positions = vec![
        real_position(
            "02.02.01.060",
            "Die Ausführung ist bereits in Position",
        ),
        Position {
            oz: "02.02.01.050".into(),
            short_text: "beschrieben.".into(),
            ..Position::default()
        },
    ];

    repair_positions(&mut positions);
    assert_eq!(positions.len(), 1);
    assert!(positions[0].long_text.contains("02.02.01.050 beschrieben."));
}

#[test]
fn keeps_unpriced_position_without_reference_context() {
    let mut positions = vec![
        real_position("02.05.01.130", "Normaler Text."),
        Position {
            oz: "02.05.01.140".into(),
            short_text: "Ungeklärte unbepreiste Leistung".into(),
            ..Position::default()
        },
    ];

    repair_positions(&mut positions);
    assert_eq!(positions.len(), 2);
}

#[test]
fn removes_subtitle_sum_artifact() {
    let mut positions = vec![
        real_position("02.05.01.140", "Normaler Text."),
        Position {
            oz: "02.05.01.140".into(),
            short_text: "Summe Untertitel 02.05.01".into(),
            ..Position::default()
        },
    ];

    repair_positions(&mut positions);
    assert_eq!(positions.len(), 1);
}

#[test]
fn keeps_omitted_position() {
    let mut positions = vec![Position {
        oz: "02.05.01.150".into(),
        short_text: "Leistung".into(),
        long_text: "Position entfällt".into(),
        ..Position::default()
    }];

    repair_positions(&mut positions);
    assert_eq!(positions.len(), 1);
}

fn position(quantity: i64, ep: Option<Decimal>, gp: Option<Decimal>) -> Position {
    Position {
        oz: "01.01.01.010".into(),
        quantity: Some(Decimal::new(quantity, 0)),
        unit_price: ep,
        total_price: gp,
        ..Position::default()
    }
}

#[test]
fn computes_missing_total() {
    let mut value = position(3, Some(Decimal::new(1250, 2)), None);
    assert!(repair_position(&mut value, &mut Vec::new()));
    assert_eq!(value.total_price, Some(Decimal::new(3750, 2)));
}

#[test]
fn swaps_obviously_reversed_prices() {
    let mut value = position(
        4,
        Some(Decimal::new(4000, 2)),
        Some(Decimal::new(1000, 2)),
    );
    assert!(repair_position(&mut value, &mut Vec::new()));
    assert_eq!(value.unit_price, Some(Decimal::new(1000, 2)));
    assert_eq!(value.total_price, Some(Decimal::new(4000, 2)));
}

#[test]
fn corrects_inconsistent_total_from_unit_price() {
    let mut value = position(
        2,
        Some(Decimal::new(1000, 2)),
        Some(Decimal::new(2500, 2)),
    );
    assert!(repair_position(&mut value, &mut Vec::new()));
    assert_eq!(value.total_price, Some(Decimal::new(2000, 2)));
}

#[test]
fn ignores_reference_positions() {
    let mut nodes = vec![Node {
        positions: vec![
            Position { oz: "01.01.01.010".into(), short_text: "Leistung".into(), ..Position::default() },
            Position { oz: "01.01.01.010".into(), short_text: "Zulage zu Position 01.01.01.010".into(), ..Position::default() },
        ],
        ..Node::default()
    }];
    remove_reference_positions(&mut nodes);
    assert_eq!(nodes[0].positions.len(), 1);
    assert_eq!(nodes[0].positions[0].short_text, "Leistung");
}

#[test]
fn keeps_all_bold_short_text_lines() {
    let xml = r#"<pdf2xml>
      <fontspec id="0" family="Arial-BoldMT"/>
      <fontspec id="1" family="ArialMT"/>
      <page number="1">
        <text top="100" left="10" font="1">01.01.01.010 1,000 St 5,00 € 5,00 €</text>
        <text top="120" left="100" font="0">Erste Zeile des Kurztexts</text>
        <text top="140" left="100" font="0">zweite Zeile des Kurztexts</text>
        <text top="170" left="100" font="1">Normaler Langtext</text>
      </page>
    </pdf2xml>"#;
    let result = parse_bold_short_texts(xml).unwrap();
    assert_eq!(
        result.get("01.01.01.010", 1),
        Some("Erste Zeile des Kurztexts\nzweite Zeile des Kurztexts")
    );
}

fn priced(oz: &str, total: i64) -> Position {
    Position {
        oz: oz.into(),
        quantity: Some(Decimal::new(1, 0)),
        unit: Some("St".into()),
        unit_price: Some(Decimal::new(total, 2)),
        total_price: Some(Decimal::new(total, 2)),
        ..Position::default()
    }
}

fn provisional(oz: &str, quantity: i64, ep: i64) -> Position {
    Position {
        oz: oz.into(),
        quantity: Some(Decimal::new(quantity, 0)),
        unit: Some("St".into()),
        unit_price: Some(Decimal::new(ep, 2)),
        provisional: true,
        price_only: true,
        ..Position::default()
    }
}

#[test]
fn keeps_price_only_when_subtitle_sum_excludes_it() {
    let text = "OZ                    Menge / Einheit             EP              GB\n01.01.01.100          1,000 St                    10,00 €         10,00 €\n01.01.01.110          2,000 St                     5,00 € Nur Einh.-Pr.\nEventualposition ohne GB\nSumme 01.01.01 Test 10,00 €\n";
    let mut boq = BillOfQuantities::new("test.pdf");
    boq.roots.push(Node {
        oz: "01.01.01".into(),
        level: 3,
        positions: vec![priced("01.01.01.100", 1000), provisional("01.01.01.110", 2, 500)],
        ..Node::default()
    });

    validate_provisional_totals(text, &mut boq).unwrap();
    assert!(boq.roots[0].positions[1].price_only);
    assert!(boq.warnings.is_empty());
}

#[test]
fn restores_position_when_subtitle_sum_contains_it() {
    let text = "OZ                    Menge / Einheit             EP              GB\n01.01.01.100          1,000 St                    10,00 €         10,00 €\n01.01.01.110          2,000 St                     5,00 €         10,00 €\nEventualposition ohne GB\nSumme 01.01.01 Test 20,00 €\n";
    let mut boq = BillOfQuantities::new("test.pdf");
    boq.roots.push(Node {
        oz: "01.01.01".into(),
        level: 3,
        positions: vec![priced("01.01.01.100", 1000), provisional("01.01.01.110", 2, 500)],
        ..Node::default()
    });

    validate_provisional_totals(text, &mut boq).unwrap();
    let restored = &boq.roots[0].positions[1];
    assert!(!restored.price_only);
    assert!(!restored.provisional);
    assert_eq!(restored.total_price, Some(Decimal::new(1000, 2)));
}

#[test]
fn adds_without_total_trigger_to_price_only_item() {
    let mut boq = BillOfQuantities::new("test.pdf");
    boq.roots.push(Node {
        positions: vec![
            Position {
                oz: "01.01.01.100".into(),
                ..Position::default()
            },
            Position {
                oz: "01.01.01.110".into(),
                price_only: true,
                provisional: true,
                ..Position::default()
            },
        ],
        ..Node::default()
    });

    let xml = r#"<Item RNoPart="100"><Qty>1</Qty></Item><Item RNoPart="110"><Qty>1</Qty></Item>"#;
    let (result, count) = apply_to_xml(xml, &boq).unwrap();
    assert_eq!(count, 1);
    assert!(result.contains(
        r#"<Item RNoPart="110"><Provis>WithoutTotal</Provis><LumpSumItem>Yes</LumpSumItem><Qty>1</Qty>"#
    ));
}

#[test]
fn does_not_duplicate_existing_trigger() {
    let mut boq = BillOfQuantities::new("test.pdf");
    boq.roots.push(Node {
        positions: vec![Position {
            price_only: true,
            ..Position::default()
        }],
        ..Node::default()
    });
    let xml = "<Item><Provis>WithoutTotal</Provis></Item>";
    let (result, count) = apply_to_xml(xml, &boq).unwrap();
    assert_eq!(count, 0);
    assert_eq!(result, xml);
}

#[test]
fn detects_indented_reference_after_real_position() {
    let xml = r#"<pdf2xml><page number="1">
      <text top="100" left="40">02.13.01.020 1,000 St 5,00 € 5,00 €</text>
      <text top="180" left="180">02.02.01.010</text>
    </page></pdf2xml>"#;
    let found = parse_occurrences(xml);
    assert_eq!(found.len(), 2);
    assert!(found[1].left > found[0].left + 18);
}

#[test]
fn removes_only_unpriced_indented_candidate() {
    let mut nodes = vec![Node {
        oz: "02.13.01".into(),
        positions: vec![Position {
            oz: "02.13.01.020".into(),
            quantity: Some(Decimal::new(1, 0)),
            unit: Some("St".into()),
            unit_price: Some(Decimal::new(1, 0)),
            page_from: Some(1),
            ..Position::default()
        }],
        ..Node::default()
    }, Node {
        oz: "02.02.01".into(),
        positions: vec![Position {
            oz: "02.02.01.010".into(),
            short_text: "beschrieben".into(),
            page_from: Some(1),
            ..Position::default()
        }],
        ..Node::default()
    }];
    let candidate = take_unpriced_position(&mut nodes, "02.02.01.010", 1).unwrap();
    assert!(append_reference(&mut nodes, "02.13.01.020", 1, &candidate));
    let target = &nodes[0].positions[0];
    assert!(target.long_text.contains("02.02.01.010 beschrieben"));
}

#[test]
fn indented_reference_goes_back_into_the_text_above() {
    let layout = r#"<pdf2xml><page number="1">
      <text top="100" left="40">02.13.01.020 1,000 St 5,00 € 5,00 €</text>
      <text top="180" left="180">02.02.01.010</text>
    </page></pdf2xml>"#;
    let mut boq = BillOfQuantities::new("test.pdf");
    boq.warnings = vec!["Unvollständige Preiszeile: 02.02.01.010".into(), "Sonst etwas".into()];
    boq.roots = vec![
        Node {
            oz: "02.13.01".into(),
            positions: vec![Position {
                oz: "02.13.01.020".into(),
                quantity: Some(Decimal::new(1, 0)),
                long_text: "siehe Position".into(),
                page_from: Some(1),
                ..Position::default()
            }],
            ..Node::default()
        },
        Node {
            oz: "02.02.01".into(),
            positions: vec![Position {
                oz: "02.02.01.010".into(),
                short_text: "beschrieben".into(),
                page_from: Some(1),
                ..Position::default()
            }],
            ..Node::default()
        },
    ];
    assert_eq!(repair_indented_references(layout, &mut boq), 1);
    assert_eq!(
        boq.roots[0].positions[0].long_text,
        "siehe Position\n02.02.01.010 beschrieben"
    );
    assert!(boq.roots[1].positions.is_empty());
    assert_eq!(boq.warnings, ["Sonst etwas"]);
}

#[test]
fn indented_reference_without_a_real_position_above_stays() {
    let layout = r#"<pdf2xml><page number="1">
      <text top="100" left="180">02.02.01.010</text>
      <text top="180" left="40">02.13.01.020</text>
    </page></pdf2xml>"#;
    let mut boq = BillOfQuantities::new("test.pdf");
    boq.roots = vec![Node {
        oz: "anders".into(),
        positions: vec![Position {
            oz: "02.02.01.010".into(),
            page_from: Some(1),
            ..Position::default()
        }],
        ..Node::default()
    }];
    assert_eq!(repair_indented_references(layout, &mut boq), 0);
    assert_eq!(boq.roots[0].positions.len(), 1);
}
