use gaeb_toolkit::clock::Moment;
use gaeb_toolkit::decimal::Decimal;
use gaeb_toolkit::gaeb2000_export::{prices_can_be_written, write_p84};
use gaeb_toolkit::events::{ledger_entry, Purchase};
use gaeb_toolkit::filenames::safe_filename;
use gaeb_toolkit::gaeb90_export::write_d84;
use gaeb_toolkit::gaeb_reader::{head_lines, print_heading};
use gaeb_toolkit::gaeb_xml::can_number;
use gaeb_toolkit::imprint::extract_imprint_sections;
use gaeb_toolkit::inline_png::{inject_into_item, parse_layout_images, ImageFile, InlinePng};
use gaeb_toolkit::parser::validate;
use gaeb_toolkit::pdf_reader::{needs_recognition, recognized_text};
use gaeb_toolkit::placeholder_oz::sort_hierarchy;
use gaeb_toolkit::price_cleanup::validate_and_repair_prices;
use gaeb_toolkit::processing::{
    access_mail, archive_stem, draft_mail, process_bill, redirect_for, trial_names, trial_report,
    try_bill,
};
use gaeb_toolkit::provisional_validation::validate_provisional_totals;
use gaeb_toolkit::reference_cleanup::repair_split_references;
use gaeb_toolkit::settings::encrypted_from_start;
use gaeb_toolkit::text::normalize_line;
use gaeb_toolkit::title_cleanup::clean_titles;
use gaeb_toolkit::xml::read_events;
use gaeb_toolkit::{
    gaeb_document_to_boq, inject_pdf_pngs, parse_document, parse_text, read_gaeb, read_gaeb_2000,
    read_gaeb_90, read_gaeb_xml, write_x83, write_x83_priced, write_x84, x83_conflicts, BillOfQuantities,
    GaebDocument, GaebItem, GaebRow, Node, Position,
};

fn noon() -> Moment {
    Moment::new(2026, 3, 5, 12, 0, 0).unwrap()
}

fn position(oz: &str) -> Position {
    Position {
        oz: oz.into(),
        quantity: Some(Decimal::new(25, 1)),
        unit: Some("m²".into()),
        unit_price: Some(Decimal::new(400, 2)),
        total_price: Some(Decimal::new(1000, 2)),
        short_text: "Putz & Farbe".into(),
        long_text: "erste Zeile\nzweite Zeile".into(),
        ..Position::default()
    }
}

fn bill(positions: Vec<Position>) -> BillOfQuantities {
    let mut boq = BillOfQuantities::new("lv.pdf");
    boq.roots.push(Node {
        oz: "01".into(),
        title: "Bereich".into(),
        level: 1,
        positions,
        ..Node::default()
    });
    boq
}

fn items(document: &GaebDocument) -> Vec<&GaebItem> {
    document
        .rows
        .iter()
        .filter_map(|row| match row {
            GaebRow::Item(item) => Some(item),
            GaebRow::Category { .. } => None,
        })
        .collect()
}

fn offer() -> GaebDocument {
    let item = |oz: &str, cents: i64| {
        GaebRow::Item(GaebItem {
            oz: oz.into(),
            unit_price: Some(Decimal::new(cents, 2)),
            total_price: Some(Decimal::new(cents * 2, 2)),
            ..GaebItem::default()
        })
    };
    GaebDocument {
        source: "a.x83".into(),
        project: "Projekt".into(),
        boq: "LV".into(),
        exchange_phase: "83".into(),
        currency: "EUR".into(),
        rows: vec![
            GaebRow::Category { oz: "01".into(), title: "Bereich".into(), level: 1 },
            item("01.0010", 1250),
            item("01.0020", -99),
        ],
    }
}

#[test]
fn a_request_is_refused_for_each_gap() {
    let mut without_quantity = position("01.0010");
    without_quantity.quantity = None;
    let mut without_unit = position("01.0020");
    without_unit.unit = None;
    let boq = bill(vec![without_quantity, without_unit, position("01.0030"), position("01.0030")]);
    let conflicts = x83_conflicts(&boq);
    assert!(conflicts.contains(&"Menge fehlt: 01.0010".to_owned()));
    assert!(conflicts.contains(&"Einheit fehlt: 01.0020".to_owned()));
    assert!(conflicts.iter().any(|conflict| conflict.contains("01.0030")));
    let error = write_x83(&boq, &noon(), false).unwrap_err();
    assert!(error.message.starts_with("X83-Export gesperrt: "));
    let xml = String::from_utf8(write_x83(&boq, &noon(), true).unwrap()).unwrap();
    assert_eq!(xml.matches("<Item ").count(), 4);
    assert!(!xml.contains("<UP>") && !xml.contains("<IT>"));
}

#[test]
fn a_written_request_can_be_read() {
    let boq = bill(vec![position("01.0010"), position("01.0020")]);
    let bytes = write_x83(&boq, &noon(), false).unwrap();
    let document = read_gaeb("lv.x83", "X83", &bytes).unwrap();
    assert_eq!(document.exchange_phase, "83");
    let found = items(&document);
    assert_eq!(found.len(), 2);
    assert_eq!(found[1].oz, "01.0020");
    assert_eq!(found[1].quantity, Some(Decimal::new(25, 1)));
    assert_eq!(found[1].unit, "m²");
    assert_eq!(found[1].short_text, "Putz & Farbe");
    assert_eq!(found[1].long_text, "erste Zeile zweite Zeile");
    assert!(found[1].unit_price.is_none());
    assert!(matches!(
        &document.rows[0],
        GaebRow::Category { oz, title, level: 1 } if oz == "01" && title == "Bereich"
    ));
    assert_eq!(document.project, "lv.pdf");
    assert_eq!(document.currency, "EUR");
    let priced = write_x84(&boq, &noon(), false).unwrap();
    let document = read_gaeb_xml("lv.x84", &priced).unwrap();
    assert_eq!(items(&document)[0].unit_price, Some(Decimal::new(4, 0)));
    assert!(can_number(&boq.roots));
}

#[test]
fn xml_events_hold_names_and_texts() {
    let events = read_events(b"<a x='1'><b>t &amp; u</b></a>");
    assert!(events.len() >= 5);
    assert!(read_gaeb_xml("a.x83", b"<a><b></a>").is_err());
    assert!(read_gaeb_xml("a.x83", b"").is_err());
}

#[test]
fn offers_read_back_their_numbers_and_prices() {
    let document = offer();
    assert!(prices_can_be_written(&document));
    let p84 = read_gaeb_2000("a.p84", &write_p84(&document, &noon()).unwrap()).unwrap();
    let d84 = read_gaeb_90("a.d84", &write_d84(&document, &noon()).unwrap()).unwrap();
    for back in [&p84, &d84] {
        let found = items(back);
        assert_eq!(found.len(), 2);
        assert_eq!(found[0].oz, "01.0010");
        assert_eq!(found[0].unit_price.unwrap().normalize().plain(), "12.5");
        assert_eq!(found[0].total_price.unwrap().normalize().plain(), "25");
    }
    assert_eq!(items(&p84)[1].unit_price.unwrap().normalize().plain(), "-0.99");
    let bytes = write_d84(&document, &noon()).unwrap();
    for line in bytes.chunks(82) {
        assert_eq!(&line[80..], b"\r\n");
    }
}

#[test]
fn offers_need_items_and_prices() {
    let mut document = offer();
    document.rows.truncate(1);
    assert_eq!(
        write_p84(&document, &noon()).unwrap_err().message,
        "Die GAEB-Datei enthält keine Positionen für eine P84."
    );
    assert_eq!(
        write_d84(&document, &noon()).unwrap_err().message,
        "Die GAEB-Datei enthält keine Positionen für eine D84."
    );
    let mut document = offer();
    if let GaebRow::Item(item) = &mut document.rows[1] {
        item.unit_price = None;
    }
    assert!(write_p84(&document, &noon()).is_err());
    assert!(write_d84(&document, &noon()).is_err());
    let mut document = offer();
    if let GaebRow::Item(item) = &mut document.rows[1] {
        item.oz = "1.2.3.4.5.6.7".into();
    }
    assert!(write_d84(&document, &noon()).is_err());
    let mut document = offer();
    if let GaebRow::Item(item) = &mut document.rows[2] {
        item.unit_price = Decimal::parse("12345678901234567890123456789");
    }
    assert!(!prices_can_be_written(&document));
    if let GaebRow::Item(item) = &mut document.rows[1] {
        item.total_price = None;
    }
    assert!(prices_can_be_written(&document));
    assert!(write_p84(&document, &noon()).is_err());
}

#[test]
fn every_item_becomes_a_position_in_one_place() {
    let boq = gaeb_document_to_boq(&offer());
    assert_eq!(boq.roots.len(), 1);
    let numbers: Vec<&str> = boq.roots[0].positions.iter().map(|p| p.oz.as_str()).collect();
    assert_eq!(numbers, ["01.0010", "01.0020"]);
}

#[test]
fn doubled_numbers_and_price_gaps_are_warned_of() {
    let text = "01.01.01.0010 Wand streichen\n10,000 m2 2,00 20,00\n\
                01.01.01.0010 Wand streichen\n10,000 m2 2,00 25,00\n";
    let boq = parse_text("lv.pdf", text).unwrap();
    assert!(boq.warnings.iter().any(|w| w == "Doppelte OZ: 01.01.01.0010"));
    assert!(boq.warnings.iter().any(|w| w.contains("Preisabweichung")));
}

#[test]
fn prices_of_a_bill_are_repaired() {
    let mut wrong = position("01.0010");
    wrong.total_price = Some(Decimal::new(1100, 2));
    let mut boq = bill(vec![wrong]);
    validate_and_repair_prices(&mut boq).unwrap();
    assert_eq!(boq.roots[0].positions[0].total_price.unwrap().plain(), "10.00");
    assert_eq!(boq.warnings.len(), 1);
    let before = boq.warnings.len();
    validate_provisional_totals("", &mut boq).unwrap();
    assert_eq!(boq.warnings.len(), before);
}

#[test]
fn scans_are_recognized_page_by_page() {
    assert!(needs_recognition(&"x ".repeat(79)));
    assert!(!needs_recognition(&"x ".repeat(80)));
    let pages = vec!["NA 15.10 Wand".to_owned(), "Text".to_owned()];
    assert_eq!(recognized_text(&pages), "15.10.001 NA 15.10 Wand\u{c}Text\u{c}");
    let failed = gaeb_toolkit::document::Error { message: "kein Poppler".into() };
    let text = "01.01.01.0010 Wand streichen\n10,000 m2 2,00 20,00\n";
    let boq = parse_document("lv.pdf", text, true, &Err(failed)).unwrap();
    assert!(boq.warnings.iter().any(|w| w.starts_with("OCR-Vorprüfung verwendet")));
    assert!(boq
        .warnings
        .iter()
        .any(|w| w == "Kurztext-Layout konnte nicht ausgewertet werden: kein Poppler"));
}

#[test]
fn a_document_without_images_stays_as_it_is() {
    let boq = bill(vec![position("01.0010")]);
    let xml = "<Item ID=\"1\"><Description></Description></Item>";
    assert_eq!(inject_pdf_pngs(xml, &Vec::new(), &boq).unwrap(), (xml.to_owned(), 0));
    let image = InlinePng {
        page: 1,
        top: 1,
        width: 40,
        data: "QUJD".into(),
        target_oz: None,
    };
    let changed = inject_into_item("<Item><Text>a</Text></Item>", &vec![&image]);
    assert!(changed.contains("QUJD"));
}

#[test]
fn images_are_measured_and_encoded() {
    let mut png = std::io::Cursor::new(Vec::new());
    image::DynamicImage::new_rgb8(64, 48)
        .write_to(&mut png, image::ImageFormat::Png)
        .unwrap();
    let file = ImageFile { path: "/tmp/x/a.png".into(), bytes: png.into_inner() };
    let layout = "<page number=\"1\"><image top=\"5\" width=\"64\" height=\"48\" src=\"a.png\"/></page>";
    let found = parse_layout_images(layout, "/tmp/x", &vec![file]).unwrap();
    assert_eq!(found.len(), 1);
    assert!(found[0].data.starts_with("iVBORw0KGgo"));
    let broken = ImageFile { path: "/tmp/x/a.png".into(), bytes: b"no image".to_vec() };
    assert!(parse_layout_images(layout, "/tmp/x", &vec![broken]).is_err());
    assert!(parse_layout_images(layout, "/tmp/x", &Vec::new()).unwrap().is_empty());
}

#[test]
fn a_draft_needs_consent() {
    let mut gap = position("01.0010");
    gap.unit = None;
    let boq = bill(vec![gap]);
    assert!(process_bill(&boq, &noon(), &Vec::new(), "pro", false).is_err());
    let draft = process_bill(&boq, &noon(), &Vec::new(), "pro", true).unwrap();
    assert!(draft.report.unwrap().contains("Einheit fehlt: 01.0010"));
    assert!(draft.offer.is_none());
    let clean = bill(vec![position("01.0010")]);
    let done = process_bill(&clean, &noon(), &Vec::new(), "free", false).unwrap();
    assert!(done.report.is_none());
    assert!(done.offer.unwrap().contains("<UP>"));
    let trial = try_bill(&boq, &noon(), &Vec::new()).unwrap();
    assert_eq!(trial.warnings.len(), 2);
    assert!(trial.warnings[0].starts_with("Sicherer X83-Export: "));
}

#[test]
fn the_free_plan_takes_fifty_positions() {
    let mut positions = Vec::new();
    for i in 0..51 {
        positions.push(position(&format!("01.{:04}", i + 1)));
    }
    let boq = bill(positions);
    let refused = match process_bill(&boq, &noon(), &Vec::new(), "free", true) {
        Err(error) => error.message,
        Ok(_) => String::new(),
    };
    assert_eq!(
        refused,
        "Die kostenlose Version unterstützt maximal 50 Positionen; erkannt wurden 51."
    );
    assert!(process_bill(&boq, &noon(), &Vec::new(), "single", false).is_ok());
}

#[test]
fn mails_say_what_is_enclosed() {
    let mail = draft_mail("Prüfung.pdf", "Anna");
    assert_eq!(mail.draft_name, "PRUEFEN_Pruefung.x83");
    assert_eq!(mail.report_name, "Pruefung_Fehlerprotokoll.txt");
    assert!(mail.body.starts_with("Guten Tag Anna,\n\n"));
    let body = access_mail("pro", "https://a.de", "t1");
    assert!(body.contains("Ihre Zahlung für GAEB Pro wurde bestätigt."));
    assert!(body.contains("https://a.de/billing/access/t1\n"));
    assert!(access_mail("account", "https://a.de", "t1").contains("Ihr Kundenkonto wurde angefordert."));
    assert_eq!(redirect_for("account"), "/konto.html");
    assert_eq!(redirect_for("single"), "/");
}

fn demands(boq: &BillOfQuantities) -> Vec<(String, Option<Decimal>, Option<String>)> {
    boq.roots[0]
        .positions
        .iter()
        .filter(|position| position.quantity.is_some())
        .map(|position| (position.oz.clone(), position.quantity, position.unit.clone()))
        .collect()
}

#[test]
fn repairs_keep_what_is_asked_for() {
    let mut open = position("01.0010");
    open.long_text = "wie in Position 01.0005 und".into();
    let split = Position {
        oz: "01.0006".into(),
        short_text: "beschrieben".into(),
        ..Position::default()
    };
    let sum = Position {
        oz: "01.0099".into(),
        short_text: "Summe Untertitel".into(),
        ..Position::default()
    };
    let mut boq = bill(vec![open, split, position("01.0030"), sum]);
    let before = demands(&boq);
    repair_split_references(&mut boq);
    clean_titles(&mut boq.roots);
    validate_and_repair_prices(&mut boq).unwrap();
    assert_eq!(before.len(), 2);
    assert_eq!(demands(&boq), before);
    assert_eq!(boq.roots[0].positions.len(), 2);
    assert!(boq.roots[0].positions[0].long_text.ends_with("und\n01.0006 beschrieben"));
}

#[test]
fn sorting_moves_positions_only() {
    let mut boq = bill(vec![position("01.0030"), position("01.0010"), position("01.0020")]);
    sort_hierarchy(&mut boq.roots);
    let found: Vec<&str> = boq.roots[0].positions.iter().map(|p| p.oz.as_str()).collect();
    assert_eq!(found, ["01.0010", "01.0020", "01.0030"]);
}

#[test]
fn every_d84_line_has_80_columns() {
    let mut document = offer();
    document.project = "Ä".repeat(60);
    document.boq = format!("{}ü€", "ß".repeat(69));
    document.currency = "€äöü".into();
    let bytes = write_d84(&document, &noon()).unwrap();
    assert_eq!(bytes.len(), 82 * 7);
    for (index, line) in bytes.chunks(82).enumerate() {
        assert_eq!(&line[80..], b"\r\n");
        assert_eq!(&line[74..80], format!("{:06}", index + 1).as_bytes());
    }
    let project = &bytes[82..164];
    assert!(project[2..42].iter().all(|byte| *byte == 0x8e));
    assert_eq!(&project[42..50], b"05.03.26");
    let boq = &bytes[164..246];
    assert!(boq[2..71].iter().all(|byte| *byte == 0xe1));
    assert_eq!(boq[71], 0x81);
    assert_eq!(boq[72], b' ');
    let back = read_gaeb_90("a.d84", &bytes).unwrap();
    assert_eq!(items(&back)[0].oz, "01.0010");
    assert_eq!(back.project, "Ä".repeat(40));
    assert_eq!(back.boq, format!("{}ü", "ß".repeat(69)));
    assert_eq!(back.currency, "Eäö");
}

#[test]
fn offers_are_read_by_their_extension() {
    let document = offer();
    let d84 = write_d84(&document, &noon()).unwrap();
    let p84 = write_p84(&document, &noon()).unwrap();
    assert_eq!(items(&read_gaeb("a.d84", "D84", &d84).unwrap()).len(), 2);
    assert_eq!(items(&read_gaeb("a.p84", "p84", &p84).unwrap()).len(), 2);
    assert!(read_gaeb("a.x84", "x84", &p84).is_err());
}

#[test]
fn an_offer_repeats_no_descriptions() {
    let boq = bill(vec![position("01.0010")]);
    let offer = String::from_utf8(write_x84(&boq, &noon(), false).unwrap()).unwrap();
    assert!(offer.contains("RNoPart=\"0010\""));
    assert!(offer.contains("<UP>4</UP>") && offer.contains("<IT>10</IT>"));
    for name in ["Description", "DetailTxt", "OutlineText", "Qty", "QU"] {
        assert!(!offer.contains(&format!("<{name}>")), "{name}");
    }
    let priced = String::from_utf8(write_x83_priced(&boq, &noon(), false).unwrap()).unwrap();
    assert!(priced.contains("<Description>") && priced.contains("<Qty>2.5</Qty>"));
}

#[test]
fn sums_are_exact_at_different_scales() {
    let zero = Decimal::new(0, 2);
    let ten = Decimal::new(10, 0);
    let sum = |a: Decimal, b: Decimal| a.checked_add(b).unwrap().plain();
    let difference = |a: Decimal, b: Decimal| a.checked_sub(b).unwrap().plain();
    assert_eq!(sum(Decimal::new(105, 1), Decimal::new(25, 2)), "10.75");
    assert_eq!(sum(zero, ten), "10");
    assert_eq!(sum(ten, zero), "10");
    assert_eq!(difference(ten, Decimal::new(999, 2)), "0.01");
    assert_eq!(difference(zero, Decimal::new(15, 1)), "-1.5");
    assert_eq!(difference(ten, zero), "10");
    assert_eq!(difference(Decimal::new(25, 2), ten), "-9.75");
}

#[test]
fn tidied_texts_stay_as_they_are() {
    let once = normalize_line("  a\u{a0}\tb  c\n");
    assert_eq!(once, "a b c");
    assert_eq!(normalize_line(&once), once);
    let name = safe_filename("../Größe 1.pdf");
    assert_eq!(name, "Groesse 1.pdf");
    assert_eq!(safe_filename(&name), name);
    assert_eq!(safe_filename(". ."), "leistungsverzeichnis.pdf");
}

#[test]
fn each_repeated_number_is_warned_of_once() {
    let mut boq = bill(vec![position("1"), position("1"), position("2"), position("1")]);
    boq.roots[0].positions[2].total_price = Some(Decimal::new(1003, 2));
    assert!(validate(&mut boq));
    let doubled = boq.warnings.iter().filter(|w| *w == "Doppelte OZ: 1").count();
    assert_eq!(doubled, 2);
    assert!(!boq.warnings.contains(&"Doppelte OZ: 2".to_owned()));
    let gaps: Vec<&String> =
        boq.warnings.iter().filter(|w| w.starts_with("Preisabweichung ")).collect();
    assert_eq!(gaps, ["Preisabweichung 2: 0.030"]);
}

#[test]
fn the_head_of_the_printed_document() {
    let mut document = offer();
    assert_eq!(
        head_lines(&document),
        ["Datei: a.x83", "Projekt: Projekt", "LV: LV", "Austauschphase: X83   Währung: EUR"]
    );
    document.boq = "Projekt".into();
    assert_eq!(head_lines(&document).len(), 3);
    document.project = String::new();
    document.boq = "A – B".into();
    assert_eq!(head_lines(&document)[1], "LV: A - B");
    assert_eq!(print_heading("01", "Rohbau – Teil"), "01  Rohbau - Teil");
}

#[test]
fn a_trial_has_names_and_a_report() {
    let names = trial_names(&archive_stem("Bau 1.pdf"));
    assert_eq!(names.archive, "Bau 1-gaeb-test.zip");
    assert_eq!(names.request, "Bau 1.x83");
    assert_eq!(names.offer, "Bau 1.x84");
    assert_eq!(names.report, "Bau 1-pruefbericht.json");
    let boq = bill(vec![position("01.0010")]);
    let trial = try_bill(&boq, &noon(), &Vec::new()).unwrap();
    let report = trial_report("x/Bau 1.pdf", &boq, &trial);
    assert_eq!(report.source, "Bau 1.pdf");
    assert_eq!((report.positions, report.priced_positions, report.named_areas), (1, 1, 1));
    assert!(report.x84_created && report.export_warnings.is_empty());
}

#[test]
fn purchases_of_single_conversions_are_entered() {
    let mut bought = Purchase {
        checkout_id: "cs_1".into(),
        email: "a@b.de".into(),
        offer: "single".into(),
        customer_id: String::new(),
        subscription_id: String::new(),
    };
    let entry = ledger_entry(&bought).unwrap();
    assert_eq!((entry.id.as_str(), entry.amount, entry.reason.as_str()), ("purchase:cs_1", 1, "purchase"));
    bought.offer = "pro".into();
    assert!(ledger_entry(&bought).is_none());
    assert!(encrypted_from_start(465) && !encrypted_from_start(587));
}

#[test]
fn an_imprint_goes_by_the_first_heading_of_a_block() {
    let block = |heads: &[&str], text: &str| {
        let heads: String = heads.iter().map(|h| format!("<h3>{h}</h3>")).collect();
        format!("<div class=\"thrv_text_element\">{heads}<p>{text}</p></div>")
    };
    let page = [
        block(&["Seitenbetreiber", "Zweite"], "a"),
        block(&["B"], "b"),
        block(&["C"], "c"),
    ]
    .concat();
    let sections = extract_imprint_sections(&page).unwrap();
    assert_eq!(sections[0].heading, "Seitenbetreiber");
    assert_eq!(sections[0].lines, ["Zweite", "a"]);
    assert_eq!(sections.len(), 3);
}
