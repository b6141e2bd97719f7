use gaeb_toolkit::decimal::Decimal;
use gaeb_toolkit::parser::{
    kind_of_line, take_price, take_quantity, LineKind, Reading, Seen,
};
use gaeb_toolkit::patterns::Found;
use gaeb_toolkit::pdf_cleanup::{continue_short, LayoutLine, LineRole};
use gaeb_toolkit::provisional_validation::{
    extract_layout_facts, last_money, matching_subset, Candidate, Fact, Finds, Gathering,
};
use gaeb_toolkit::provisional_xml::{apply_to_xml, mark_items};
use gaeb_toolkit::title_cleanup::title_left;
use gaeb_toolkit::{BillOfQuantities, Node, Position};

fn found(start: usize, text: &str) -> Option<Found> {
    Some(Found { start, end: start + text.len(), text: text.into() })
}

fn nothing_seen() -> Seen {
    Seen { footer: false, start: None, heading: None, sum: false }
}

fn reading() -> Reading {
    Reading {
        boq: BillOfQuantities::new("lv.pdf"),
        headings: Vec::new(),
        current: None,
        lines: Vec::new(),
        preamble: Vec::new(),
    }
}

#[test]
fn lines_are_told_apart_by_what_was_found() {
    let position = Seen {
        start: Some(vec![found(0, "01.01.01.010 Putz"), found(0, "01.01.01.010"), None, found(13, "Putz")]),
        ..nothing_seen()
    };
    assert_eq!(
        kind_of_line("01.01.01.010 Putz", &position, false, false),
        LineKind::Position
    );
    let heading = Seen {
        heading: Some(vec![found(0, "01 Bereich"), found(0, "01"), None, found(3, "Bereich")]),
        ..nothing_seen()
    };
    assert_eq!(kind_of_line("01 Bereich", &heading, false, false), LineKind::Heading);
    let footer = Seen { footer: true, ..nothing_seen() };
    assert_eq!(kind_of_line("Seite 1", &footer, false, false), LineKind::Noise);
    let sum = Seen { sum: true, ..nothing_seen() };
    assert_eq!(kind_of_line("Summe 01.01", &sum, true, false), LineKind::Sum);
    assert_eq!(kind_of_line("Titelsumme: 1", &nothing_seen(), true, false), LineKind::Sum);
    assert_eq!(kind_of_line("Putz", &nothing_seen(), true, false), LineKind::Text);
}

#[test]
fn a_position_opens_with_its_groups() {
    let caps = vec![found(0, "01.01.01.010 Putz"), found(0, "01.01.01.010"), None, found(13, "Putz")];
    let mut read = reading();
    read.open_position(&caps, &None, 3);
    assert_eq!(read.current.as_ref().unwrap().oz, "01.01.01.010");
    assert_eq!(read.lines, ["Putz"]);
    let prices = vec![
        found(0, "2,000 m 1,00 € 2,00 €"),
        found(0, "2,000"),
        found(6, "m"),
        found(8, "1,00"),
        found(15, "2,00"),
    ];
    let mut read = reading();
    read.open_position(&caps, &Some(prices), 3);
    let position = read.current.as_ref().unwrap();
    assert_eq!(position.quantity, Some(Decimal::new(2000, 3)));
    assert_eq!(position.total_price, Some(Decimal::new(200, 2)));
    assert!(read.lines.is_empty());
    read.note_heading(&vec![found(0, "01 A"), found(0, "01"), None, found(3, " A ")], 2);
    assert_eq!(read.headings[0].title, "A");
    read.add_text("Eventualposition ohne GB".into(), 3);
    let done = read.current.take().unwrap();
    assert!(done.price_only && done.provisional);
    read.file_position(done);
    assert_eq!(read.boq.roots[0].oz, "01");
}

#[test]
fn prices_are_taken_from_the_lines() {
    let caps = vec![
        found(0, "1,000 St 5,00 €"),
        found(0, "1,000"),
        found(6, "St"),
        found(9, "5,00"),
        None,
    ];
    let mut position = Position::default();
    let mut lines = vec!["1,000 St".to_owned(), "5,00 €".to_owned(), "Text".to_owned()];
    take_price(&mut position, &mut lines, 2, &caps);
    assert_eq!(position.unit.as_deref(), Some("St"));
    assert_eq!(position.unit_price, Some(Decimal::new(500, 2)));
    assert_eq!(lines, ["Text"]);
    let caps = vec![
        found(7, "1,000 St 5,00 nur EP"),
        found(7, "1,000"),
        found(13, "St"),
        found(16, "5,00"),
        None,
        found(21, "nur EP"),
    ];
    let mut position = Position::default();
    let mut lines = vec!["Kurz".to_owned(), "Lampe  1,000 St 5,00 nur EP".to_owned()];
    take_quantity(&mut position, &mut lines, 1, &caps);
    assert!(position.price_only);
    assert_eq!(lines, ["Kurz", "Lampe"]);
}

#[test]
fn layout_facts_follow_what_was_found() {
    let mut gathering = Gathering {
        facts: Vec::new(),
        totals: Vec::new(),
        column: None,
        current: None,
    };
    let amount = |start: usize, text: &str| vec![found(start, text)];
    gathering.take_line(
        "01.01.01.010 1,000 St 5,00 € 5,00 €",
        &Finds {
            sum: None,
            position: Some(vec![found(0, "01.01.01.010 "), found(0, "01.01.01.010")]),
            price: true,
            amounts: vec![amount(22, "5,00 €"), amount(31, "5,00 €")],
            raw_amounts: vec![amount(22, "5,00 €"), amount(31, "5,00 €")],
        },
    );
    assert_eq!(gathering.facts.len(), 1);
    assert!(gathering.facts[0].has_total && !gathering.facts[0].explicit_price_only);
    gathering.take_line(
        "Summe 01.01.01 5,00 €",
        &Finds {
            sum: Some(vec![found(0, "Summe 01.01.01"), found(6, "01.01.01")]),
            position: None,
            price: false,
            amounts: vec![amount(15, "5,00 €")],
            raw_amounts: vec![amount(15, "5,00 €")],
        },
    );
    assert_eq!(gathering.totals[0].oz, "01.01.01");
    assert_eq!(gathering.totals[0].total, Decimal::new(500, 2));
    assert!(gathering.current.is_none());
    assert_eq!(last_money(&vec![amount(0, "1,00"), amount(5, "1.234,50 EUR")]), Some(Decimal::new(123450, 2)));
    assert!(last_money(&Vec::new()).is_none());
    assert!(extract_layout_facts("").facts.is_empty());
}

#[test]
fn the_candidates_that_make_up_the_difference_are_picked() {
    let candidates = vec![
        Candidate { index: 0, value: Decimal::new(1000, 2) },
        Candidate { index: 1, value: Decimal::new(2000, 2) },
        Candidate { index: 2, value: Decimal::new(3000, 2) },
    ];
    let positions: Vec<Position> = ["1", "2", "3"]
        .iter()
        .map(|oz| Position { oz: (*oz).into(), ..Position::default() })
        .collect();
    let facts = vec![Fact {
        oz: "1".into(),
        saw_price_row: true,
        has_total: true,
        explicit_price_only: false,
    }];
    let picked = matching_subset(&candidates, Decimal::new(3000, 2), &positions, &facts);
    assert_eq!(picked, Some(Some(vec![0, 1])));
    let none = matching_subset(&candidates, Decimal::new(700, 2), &positions, &facts);
    assert_eq!(none, Some(None));
}

#[test]
fn a_title_is_done_when_nothing_is_left_to_take() {
    assert_eq!(title_left("Putz 1,00 €", "Putz ").as_deref(), Some("Putz"));
    assert_eq!(title_left("Putz", "Putz"), None);
}

#[test]
fn items_are_marked_once() {
    let mut boq = BillOfQuantities::new("lv.pdf");
    boq.roots.push(Node {
        positions: vec![
            Position { price_only: true, ..Position::default() },
            Position::default(),
            Position { provisional: true, ..Position::default() },
        ],
        ..Node::default()
    });
    let xml = "<Ä/><Item a=\"1\"><Qty>1</Qty></Item><Item></Item><Item><p/></Item>";
    let (once, count) = apply_to_xml(xml, &boq).unwrap();
    assert_eq!(count, 2);
    let (twice, none) = apply_to_xml(&once, &boq).unwrap();
    assert_eq!((twice, none), (once, 0));
    let (same, none) = apply_to_xml(xml, &BillOfQuantities::new("lv.pdf")).unwrap();
    assert_eq!((same.as_str(), none), (xml, 0));
    let tags = vec![vec![found(0, "<Item>")]];
    let (text, count) = mark_items("<Item></Item>", &tags, &vec![true]);
    assert_eq!(count, 1);
    assert_eq!(
        text,
        "<Item><Provis>WithoutTotal</Provis><LumpSumItem>Yes</LumpSumItem></Item>"
    );
}

#[test]
fn a_short_text_goes_on_by_the_roles_of_the_lines() {
    let line = |text: &str| LayoutLine { top: 0, bold: true, text: text.into() };
    let all = vec![line("eins"), line("Seite"), line("zwei"), line("drei"), line("vier")];
    let roles = vec![
        LineRole::Part,
        LineRole::Noise,
        LineRole::Part,
        LineRole::Other,
        LineRole::Part,
    ];
    let mut short: Vec<String> = Vec::new();
    continue_short(&all, &roles, 0, &mut short);
    assert_eq!(short, ["eins", "zwei"]);
    let mut short: Vec<String> = Vec::new();
    continue_short(&all, &roles, 3, &mut short);
    assert_eq!(short, ["vier"]);
    let numbered = vec![LineRole::Number; 5];
    let mut short: Vec<String> = vec!["Anfang".into()];
    continue_short(&all, &numbered, 0, &mut short);
    assert_eq!(short, ["Anfang"]);
}
