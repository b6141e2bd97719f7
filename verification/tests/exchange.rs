use gaeb_toolkit::clock::Moment;
use gaeb_toolkit::decimal::Decimal;
use gaeb_toolkit::gaeb2000::parse_gaeb_2000;
use gaeb_toolkit::gaeb2000_export::write_p84;
use gaeb_toolkit::gaeb90::parse_gaeb_90;
use gaeb_toolkit::gaeb90_export::write_d84;
use gaeb_toolkit::{
    gaeb_document_to_boq, read_gaeb_2000, read_gaeb_90, read_gaeb_xml, GaebDocument, GaebItem,
    GaebRow,
};

fn noon() -> Moment {
    Moment::new(2026, 3, 5, 12, 0, 0).unwrap()
}

#[test]
fn parses_p83_category_position_and_text() {
    let text = r#"#begin[GAEB]
 #begin[PrjInfo]
  [Name]Projekt 1[end]
  [Wae]EUR[end]
 #end[PrjInfo]
 #begin[Vergabe]
  [DP]83[end]
  #begin[LV]
   #begin[LVInfo]
[Name]Trockenbau[end]
#begin[LVGlied]
 [Typ]LVStufe[end]
 [Laenge]2[end]
#end[LVGlied]
#begin[LVGlied]
 [Typ]LVStufe[end]
 [Laenge]2[end]
#end[LVGlied]
#begin[LVGlied]
 [Typ]Position[end]
 [Laenge]4[end]
#end[LVGlied]
   #end[LVInfo]
   #begin[LVBereich]
[OZ]0101[end]
[Bez]Wände[end]
#begin[Position]
 [OZ]01010010[end]
 #begin[Beschreibung]
  [Langtext]
  Liefern &#38; montieren
  [end]
  [Kurztext]GK-Wand 100 mm[end]
 #end[Beschreibung]
 [ME]m²[end]
 [Menge]12,500[end]
#end[Position]
   #end[LVBereich]
  #end[LV]
 #end[Vergabe]
#end[GAEB]"#;
    let document = parse_gaeb_2000("test.p83", text).unwrap();
    assert_eq!(document.project, "Projekt 1");
    assert_eq!(document.boq, "Trockenbau");
    assert!(matches!(
        &document.rows[0],
        GaebRow::Category { oz, title, .. } if oz == "01.01" && title == "Wände"
    ));
    let GaebRow::Item(item) = &document.rows[1] else {
        panic!("Position erwartet")
    };
    assert_eq!(item.oz, "01.01.0010");
    assert_eq!(item.short_text, "GK-Wand 100 mm");
    assert_eq!(item.long_text, "Liefern & montieren");
    assert_eq!(item.quantity, Some(Decimal::new(12500, 3)));
    assert_eq!(item.unit, "m²");
}

#[test]
fn writes_and_reads_p84_prices_and_oz() {
    let document = GaebDocument {
        source: "angebot.x84".into(),
        project: "Projekt".into(),
        boq: "LV".into(),
        exchange_phase: "84".into(),
        currency: "EUR".into(),
        rows: vec![
            GaebRow::Category {
                oz: "01.03".into(),
                title: "Titel".into(),
                level: 2,
            },
            GaebRow::Item(GaebItem {
                oz: "01.03.001".into(),
                unit_price: Some(Decimal::new(5580, 2)),
                total_price: Some(Decimal::new(1132740, 2)),
                ..Default::default()
            }),
        ],
    };
    let bytes = write_p84(&document, &noon()).unwrap();
    let parsed = read_gaeb_2000("angebot.p84", &bytes).unwrap();
    assert_eq!(parsed.exchange_phase, "84");
    let GaebRow::Item(item) = &parsed.rows[1] else {
        panic!("Position erwartet")
    };
    assert_eq!(item.oz, "01.03.001");
    assert_eq!(item.unit_price, Some(Decimal::new(5580, 2)));
    assert_eq!(item.total_price, Some(Decimal::new(1132740, 2)));
}

fn record(value: &str, sequence: usize) -> String {
    format!("{value:<74}{sequence:06}")
}

#[test]
fn parses_d83_structure_text_quantity_and_cp850() {
    let data = [
        record(
            "00        83L                                                 112233PP090",
            1,
        ),
        record("01Testprojekt", 2),
        record("08EUR   Euro", 3),
        record("11010203   N    Titel", 4),
        record("12Trockenbau", 5),
        record("21010203 4 NNN         00000012500m2", 6),
        record("25GK-Wand 100mm F90", 7),
        record("26   Liefern und montieren.", 8),
        record("99", 9),
    ]
    .join("\r\n");
    let document = parse_gaeb_90("test.d83", &data).unwrap();
    assert_eq!(document.exchange_phase, "83");
    assert!(matches!(
        &document.rows[0],
        GaebRow::Category { oz, title, .. } if oz == "01.02.03" && title == "Trockenbau"
    ));
    let GaebRow::Item(item) = &document.rows[1] else {
        panic!("Position erwartet")
    };
    assert_eq!(item.oz, "01.02.03.4");
    assert_eq!(item.quantity, Some(Decimal::new(12500, 3)));
    assert_eq!(item.unit, "m2");
    assert_eq!(item.short_text, "GK-Wand 100mm F90");
    assert_eq!(item.long_text, "Liefern und montieren.");
}

#[test]
fn parses_d81_four_digit_position_number() {
    let data = [
        record(
            "00        81L                                                 1122PPPPI90",
            1,
        ),
        record("110107     N    Abschnitt", 2),
        record("12Fenster", 3),
        record("2101070006 NNN         00000001000Psch", 4),
        record("25Windfang", 5),
        record("99", 6),
    ]
    .join("\r\n");
    let document = parse_gaeb_90("test.d81", &data).unwrap();
    let GaebRow::Item(item) = &document.rows[1] else {
        panic!("Position erwartet")
    };
    assert_eq!(item.oz, "01.07.0006");
    assert_eq!(item.quantity, Some(Decimal::new(1, 0)));
    assert_eq!(item.unit, "Psch");
}

#[test]
fn converts_document_for_x83_writer() {
    let document = GaebDocument {
        source: "test.d83".into(),
        project: "Projekt".into(),
        boq: "LV".into(),
        exchange_phase: "83".into(),
        currency: "EUR".into(),
        rows: vec![
            GaebRow::Category {
                oz: "01".into(),
                title: "Los".into(),
                level: 1,
            },
            GaebRow::Item(GaebItem {
                oz: "01.10".into(),
                short_text: "Leistung".into(),
                quantity: Some(Decimal::new(1, 0)),
                unit: "St".into(),
                ..GaebItem::default()
            }),
        ],
    };
    let boq = gaeb_document_to_boq(&document);
    assert_eq!(boq.roots[0].title, "Los");
    assert_eq!(boq.roots[0].positions[0].oz, "01.10");
}

#[test]
fn writes_80_column_d84_and_reads_prices_back() {
    let document = GaebDocument {
        source: "angebot.x84".into(),
        project: "Projekt".into(),
        boq: "LV".into(),
        exchange_phase: "84".into(),
        currency: "EUR".into(),
        rows: vec![GaebRow::Item(GaebItem {
            oz: "01.03.001".into(),
            unit_price: Some(Decimal::new(5580, 2)),
            total_price: Some(Decimal::new(1132740, 2)),
            ..Default::default()
        })],
    };
    let bytes = write_d84(&document, &noon()).unwrap();
    assert!(bytes
        .split(|byte| *byte == b'\n')
        .filter(|line| !line.is_empty())
        .all(|line| line.trim_ascii_end().len() == 80));
    let parsed = read_gaeb_90("angebot.d84", &bytes).unwrap();
    let GaebRow::Item(item) = &parsed.rows[0] else {
        panic!("Position erwartet")
    };
    assert_eq!(item.oz, "01.03.001");
    assert_eq!(item.unit_price, Some(Decimal::new(55800, 3)));
    assert_eq!(item.total_price, Some(Decimal::new(1132740, 2)));
}

#[test]
fn reads_gaeb_xml_and_writes_pdf() {
    let source = r#"<?xml version="1.0" encoding="UTF-8"?>
<GAEB xmlns="http://www.gaeb.de/GAEB_DA_XML/DA84/3.3">
  <PrjInfo><LblPrj>Umbau Büro</LblPrj></PrjInfo>
  <Award><DP>84</DP><AwardInfo><Cur>EUR</Cur></AwardInfo>
<BoQ><BoQInfo><LblBoQ>Malerarbeiten</LblBoQ></BoQInfo><BoQBody>
  <BoQCtgy RNoPart="01"><LblTx><p><span>Titel</span></p></LblTx><BoQBody>
    <Itemlist><Item RNoPart="001"><Qty>12.5</Qty><QU>m²</QU><UP>4.2</UP><IT>52.5</IT>
      <Description><CompleteText><DetailTxt><Text><p><span>Untergrund vorbereiten.</span></p></Text></DetailTxt>
      <OutlineText><OutlTxt><TextOutlTxt><p><span>Wände streichen</span></p></TextOutlTxt></OutlTxt></OutlineText>
      </CompleteText></Description>
    </Item></Itemlist>
  </BoQBody></BoQCtgy>
</BoQBody></BoQ>
  </Award>
</GAEB>"#;

    let document = read_gaeb_xml("test.x84", source.as_bytes()).unwrap();
    assert_eq!(document.project, "Umbau Büro");
    assert_eq!(document.exchange_phase, "84");
    assert!(matches!(
        &document.rows[1],
        GaebRow::Item(item)
            if item.oz == "01.001"
                && item.short_text == "Wände streichen"
                && item.unit == "m²"
    ));
}

#[test]
fn accepts_structured_x81_template_without_positions() {
    let source = r#"<?xml version="1.0" encoding="UTF-8"?>
<GAEB xmlns="http://www.gaeb.de/GAEB_DA_XML/DA81/3.3">
  <Award><DP>81</DP><BoQ><BoQBody>
<BoQCtgy RNoPart="01"><LblTx><p><span>Vorlage</span></p></LblTx></BoQCtgy>
  </BoQBody></BoQ></Award>
</GAEB>"#;
    let document = read_gaeb_xml("template.x81", source.as_bytes()).unwrap();
    assert_eq!(document.exchange_phase, "81");
    assert!(matches!(document.rows[0], GaebRow::Category { .. }));
}
