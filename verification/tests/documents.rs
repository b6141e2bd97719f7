use gaeb_toolkit::breakdown::{from_boq, level_label, Breakdown};
use gaeb_toolkit::clock::Moment;
use gaeb_toolkit::decimal::Decimal;
use gaeb_toolkit::inline_png::{
    inject_images_into_items, nearest_preceding_oz, parse_layout_images, ImageFile, InlinePng,
    PositionRef, TextMarker,
};
use gaeb_toolkit::title_cleanup::strip_trailing_totals;
use gaeb_toolkit::{
    normalize_offer_oz, write_x83, write_x83_priced, write_x84, x83_conflicts, BillOfQuantities,
    Node, Position,
};
use image::ImageFormat;
use std::io::Cursor;

fn noon() -> Moment {
    Moment::new(2026, 3, 5, 12, 0, 0).unwrap()
}

fn png(width: u32, height: u32) -> Vec<u8> {
    let mut bytes = Cursor::new(Vec::new());
    image::DynamicImage::new_rgb8(width, height).write_to(&mut bytes, ImageFormat::Png).unwrap();
    bytes.into_inner()
}

#[test]
fn writes_x83_with_position_hierarchy() {
    let mut boq = BillOfQuantities::new("angebot.pdf");
    boq.project = "Rue 7".into();
    boq.roots.push(Node {
        oz: "01".into(),
        title: "Bereich".into(),
        level: 1,
        children: vec![Node {
            oz: "01.02".into(),
            title: "Titel".into(),
            level: 2,
            children: vec![Node {
                oz: "01.02.03".into(),
                title: "Untertitel".into(),
                level: 3,
                positions: vec![Position {
                    oz: "01.02.03.040".into(),
                    quantity: Some(Decimal::new(12500, 3)),
                    unit: Some("St".into()),
                    short_text: "Kurztext".into(),
                    long_text: "Langtext".into(),
                    ..Position::default()
                }],
                ..Node::default()
            }],
            ..Node::default()
        }],
        ..Node::default()
    });

    let xml = String::from_utf8(write_x83(&boq, &noon(), false).unwrap()).unwrap();
    assert!(xml.contains("http://www.gaeb.de/GAEB_DA_XML/DA83/3.3"));
    assert!(xml.contains("<DP>83</DP>"));
    assert!(xml.contains("RNoPart=\"040\""));
    assert!(xml.contains("<Qty>12.5</Qty>"));
    assert!(!xml.contains("<UP>"));
}

#[test]
fn removes_totals_from_category_labels() {
    assert_eq!(
        strip_trailing_totals("Rückbauarbeiten 123.456,78 €"),
        "Rückbauarbeiten"
    );
    assert_eq!(
        strip_trailing_totals("Schutzmaßnahmen 1.000,00 EUR 2.000,00 €"),
        "Schutzmaßnahmen"
    );
    assert_eq!(strip_trailing_totals("Titel 2026"), "Titel 2026");
}

#[test]
fn blocks_duplicate_oz_without_manual_approval() {
    let mut boq = BillOfQuantities::new("angebot.pdf");
    let duplicate = Position {
        oz: "01.01.01.010".into(),
        quantity: Some(Decimal::new(1, 0)),
        unit: Some("St".into()),
        short_text: "Test".into(),
        ..Position::default()
    };
    boq.roots.push(Node {
        oz: "01".into(),
        level: 1,
        children: vec![Node {
            oz: "01.01".into(),
            level: 2,
            children: vec![Node {
                oz: "01.01.01".into(),
                level: 3,
                positions: vec![duplicate.clone(), duplicate],
                ..Node::default()
            }],
            ..Node::default()
        }],
        ..Node::default()
    });

    let error = write_x83(&boq, &noon(), false).unwrap_err();
    assert!(error.message.contains("manuell geprüft"));
}

fn priced_boq() -> BillOfQuantities {
    let mut boq = BillOfQuantities::new("angebot.pdf");
    boq.roots.push(Node {
        oz: "01".into(),
        children: vec![Node {
            oz: "01.01".into(),
            children: vec![Node {
                oz: "01.01.01".into(),
                positions: vec![Position {
                    oz: "01.01.01.010".into(),
                    quantity: Some(Decimal::new(2500, 3)),
                    unit: Some("St".into()),
                    unit_price: Some(Decimal::new(1000, 2)),
                    total_price: Some(Decimal::new(2500, 2)),
                    short_text: "Leistung".into(),
                    ..Position::default()
                }],
                ..Node::default()
            }],
            ..Node::default()
        }],
        ..Node::default()
    });
    boq
}

#[test]
fn writes_x84_with_prices() {
    let xml = String::from_utf8(write_x84(&priced_boq(), &noon(), false).unwrap()).unwrap();
    assert!(xml.contains("DA84/3.3"));
    assert!(xml.contains("<DP>84</DP>"));
    assert!(xml.contains("<UP>10</UP>"));
    assert!(xml.contains("<IT>25</IT>"));
}

#[test]
fn writes_priced_x83() {
    let xml = String::from_utf8(write_x83_priced(&priced_boq(), &noon(), false).unwrap()).unwrap();
    assert!(xml.contains("DA83/3.3"));
    assert!(xml.contains("<DP>83</DP>"));
    assert!(xml.contains("<UP>10</UP>"));
}

#[test]
fn removes_one_or_more_trailing_totals() {
    assert_eq!(
        strip_trailing_totals("Rückbauarbeiten 123.456,78 €"),
        "Rückbauarbeiten"
    );
    assert_eq!(
        strip_trailing_totals("Schutzmaßnahmen 1.000,00 EUR 2.000,00 €"),
        "Schutzmaßnahmen"
    );
    assert_eq!(strip_trailing_totals("Titel 2026"), "Titel 2026");
}

#[test]
fn normalizes_short_na_number_for_gaeb_hierarchy() {
    let text = "NA 15.10 Anschluss GK-Wand\n1,000 m 8,25 8,25";
    assert_eq!(
        normalize_offer_oz(text),
        "15.10.001 NA 15.10 Anschluss GK-Wand\n1,000 m 8,25 8,25"
    );
}

#[test]
fn omitted_position_needs_no_quantity_or_unit() {
    let mut boq = BillOfQuantities::new("test.pdf");
    boq.roots.push(Node {
        positions: vec![Position {
            oz: "01.01.01.130".into(),
            short_text: "Barken aufstellen".into(),
            long_text: "Position entfällt".into(),
            ..Position::default()
        }],
        ..Node::default()
    });

    assert!(x83_conflicts(&boq).is_empty());
}

#[test]
fn normal_position_still_needs_quantity_and_unit() {
    let mut boq = BillOfQuantities::new("test.pdf");
    boq.roots.push(Node {
        positions: vec![Position {
            oz: "01.01.01.120".into(),
            short_text: "Barken aufstellen".into(),
            ..Position::default()
        }],
        ..Node::default()
    });

    let conflicts = x83_conflicts(&boq);
    assert!(conflicts.contains(&"Menge fehlt: 01.01.01.120".to_owned()));
    assert!(conflicts.contains(&"Einheit fehlt: 01.01.01.120".to_owned()));
}

#[test]
fn derives_levels_and_lengths_from_positions() {
    let mut boq = BillOfQuantities::new("test.pdf");
    boq.roots.push(Node {
        positions: vec![
            Position {
                oz: "1.2.10".into(),
                ..Position::default()
            },
            Position {
                oz: "12.3.100".into(),
                ..Position::default()
            },
        ],
        ..Node::default()
    });

    assert_eq!(
        from_boq(&boq),
        Breakdown {
            level_lengths: vec![2, 1],
            item_length: 3,
        }
    );
}

#[test]
fn chooses_nearest_preceding_oz() {
    let markers = vec![
        TextMarker {
            top: 100,
            oz: "01.01.01.010".into(),
        },
        TextMarker {
            top: 500,
            oz: "01.01.01.020".into(),
        },
    ];
    assert_eq!(nearest_preceding_oz(450, &markers).as_deref(), Some("01.01.01.010"));
    assert_eq!(nearest_preceding_oz(700, &markers).as_deref(), Some("01.01.01.020"));
}

#[test]
fn parses_positioned_image_from_layout() {
    let files = vec![ImageFile {
        path: "/tmp/layout/layout-1_1.png".into(),
        bytes: png(100, 80),
    }];
    let xml = r#"<pdf2xml><page number="1"><text top="100">01.01.01.010 Leistung</text><image top="220" width="297" height="100" src="layout-1_1.png"/></page></pdf2xml>"#;
    let images = parse_layout_images(xml, "/tmp/layout", &files).unwrap();
    assert_eq!(images.len(), 1);
    assert_eq!(images[0].target_oz.as_deref(), Some("01.01.01.010"));
}

#[test]
fn injects_image_into_matching_item() {
    let xml = "<GAEB><Item ID=\"a\"><Description><CompleteText><OutlineText/></CompleteText></Description></Item><Item ID=\"b\"><Description><CompleteText><OutlineText/></CompleteText></Description></Item></GAEB>";
    let images = vec![InlinePng {
        page: 2,
        top: 300,
        width: 297,
        data: "iVBORw0KGgo=".into(),
        target_oz: Some("01.01.01.020".into()),
    }];
    let positions = vec![
        PositionRef {
            oz: "01.01.01.010".into(),
            page_from: 1,
            page_to: 1,
        },
        PositionRef {
            oz: "01.01.01.020".into(),
            page_from: 2,
            page_to: 2,
        },
    ];
    let (result, count) = inject_images_into_items(xml, &images, &positions).unwrap();
    assert_eq!(count, 1);
    let second = result.find("ID=\"b\"").unwrap();
    let image = result.find("<image width=\"297\"").unwrap();
    assert!(image > second);
}

#[test]
fn levels_have_names() {
    assert_eq!(level_label(0), "Bereich");
    assert_eq!(level_label(2), "Untertitel");
    assert_eq!(level_label(3), "Gliederungsebene 4");
}
