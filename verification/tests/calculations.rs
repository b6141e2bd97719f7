use gaeb_toolkit::decimal::Decimal;
use gaeb_toolkit::gaeb2000::{decode_entities, decode_windows_1252, format_compact_oz, parse_decimal};
use gaeb_toolkit::gaeb2000_export::{compact_oz, decimal, encode_windows_1252, escape};
use gaeb_toolkit::gaeb90::{decode_cp850, format_oz, parse_implied_decimal};
use gaeb_toolkit::gaeb90_export::{encode_cp850, implied_price, oz_mask};
use gaeb_toolkit::gaeb_reader::{print_item, printable, wrap};
use gaeb_toolkit::order::ranks;
use gaeb_toolkit::price_cleanup::{close, decimal_text, money, repair_position, total_of};
use gaeb_toolkit::text::{lowered, parse_integer, parse_size};
use gaeb_toolkit::title_cleanup::strip_trailing_totals;
use gaeb_toolkit::{GaebItem, Position};

#[test]
fn decimal_arithmetic_is_exact() {
    let a = Decimal::new(1250, 2);
    let b = Decimal::new(-3, 1);
    assert_eq!(a.checked_add(b).unwrap().plain(), "12.20");
    assert_eq!(a.checked_sub(b).unwrap().plain(), "12.80");
    assert_eq!(a.checked_mul(b).unwrap().plain(), "-3.750");
    assert_eq!(a.checked_div(Decimal::new(4, 0)).unwrap().normalize().plain(), "3.125");
    assert!(a.checked_div(Decimal::new(0, 0)).is_none());
    assert!(b.at_most(a));
    assert!(!a.at_most(b));
    assert_eq!(b.abs().plain(), "0.3");
    assert!(b.is_sign_negative());
}

#[test]
fn decimal_overflow_gives_nothing() {
    let largest = Decimal::parse("79228162514264337593543950335").unwrap();
    assert_eq!(largest.mantissa(), 79_228_162_514_264_337_593_543_950_335);
    assert!(largest.checked_add(Decimal::new(1, 0)).is_none());
    assert!(largest.checked_mul(Decimal::new(2, 0)).is_none());
    assert!(Decimal::from_parts(79_228_162_514_264_337_593_543_950_336, 0).is_none());
    assert!(Decimal::from_parts(1, 29).is_none());
}

#[test]
fn decimal_rounds_ties_to_the_even_neighbour() {
    assert_eq!(Decimal::new(12345, 3).round_dp(2).plain(), "12.34");
    assert_eq!(Decimal::new(12355, 3).round_dp(2).plain(), "12.36");
    assert_eq!(Decimal::new(-12345, 3).round_dp(2).plain(), "-12.34");
    assert_eq!(Decimal::new(12346, 3).round_dp(2).plain(), "12.35");
}

#[test]
fn decimal_texts_show_what_is_asked_for() {
    let d = Decimal::new(12500, 3);
    assert_eq!(d.plain(), "12.500");
    assert_eq!(d.normalize().plain(), "12.5");
    assert_eq!(d.fixed(2), "12.50");
    assert_eq!(d.fixed(0), "12");
    assert_eq!(Decimal::new(12999, 3).fixed(2), "12.99");
    assert_eq!(decimal_text(d), "12.5");
    assert_eq!(Decimal::parse("12.50").unwrap().scale(), 2);
    assert!(Decimal::parse("12,50").is_none());
    assert!(Decimal::parse("").is_none());
}

#[test]
fn money_has_two_places_and_a_cent_is_close() {
    assert_eq!(money(Decimal::new(12346, 3)).plain(), "12.35");
    assert_eq!(total_of(Decimal::new(25, 1), Decimal::new(1999, 2)).unwrap().plain(), "49.98");
    assert_eq!(close(Decimal::new(100, 2), Decimal::new(102, 2)), Some(true));
    assert_eq!(close(Decimal::new(100, 2), Decimal::new(103, 2)), Some(false));
}

#[test]
fn texts_are_lowered_beyond_ascii() {
    assert_eq!(lowered("ÄPFEL & Öl"), "äpfel & öl");
    assert_eq!(lowered("STRASSE"), "strasse");
}

#[test]
fn numbers_are_read_with_their_limits() {
    assert_eq!(parse_integer("-12"), Some(-12));
    assert_eq!(parse_integer("+12"), Some(12));
    assert_eq!(parse_integer("2147483647"), Some(2147483647));
    assert_eq!(parse_integer("2147483648"), None);
    assert_eq!(parse_integer("12a"), None);
    assert_eq!(parse_size("17"), Some(17));
    assert_eq!(parse_size("-1"), None);
}

#[test]
fn windows_1252_bytes_come_back() {
    let mut bytes: Vec<u8> = Vec::new();
    for b in 0..=255u8 {
        bytes.push(b);
    }
    let text = decode_windows_1252(&bytes);
    assert!(text.contains('€'));
    assert!(text.contains('ß'));
    assert_eq!(encode_windows_1252(&text), bytes);
    assert_eq!(encode_windows_1252("中"), b"?");
}

#[test]
fn cp850_umlauts_come_back() {
    let bytes = encode_cp850("Tür für größere Maße");
    assert_eq!(bytes[1], 0x81);
    assert_eq!(decode_cp850(&bytes), "Tür für größere Maße");
}

#[test]
fn entities_are_decoded() {
    assert_eq!(decode_entities("Liefern &amp; montieren"), "Liefern & montieren");
    assert_eq!(decode_entities("3 &lt; 4"), "3 < 4");
    assert_eq!(decode_entities("R&D"), "R&D");
    assert_eq!(escape("a & b [c]"), "a &#38; b &#91;c&#93;");
}

#[test]
fn ordinal_numbers_are_split_and_joined() {
    assert_eq!(format_compact_oz("01010010", &[2, 2, 4]), "01.01.0010");
    assert_eq!(compact_oz("01.01.0010"), "01010010");
    assert_eq!(format_oz("01020030", "1122PPPPI"), "01.02.0030");
    assert_eq!(oz_mask(&[2, 2, 4]), "4455PPPP ");
}

#[test]
fn prices_are_read_and_written_with_implied_places() {
    assert_eq!(parse_implied_decimal("00000012500", 3).unwrap().plain(), "12.500");
    assert_eq!(implied_price(Decimal::new(125, 1), 3, 11).unwrap(), "00000012500");
    assert!(implied_price(Decimal::new(i64::MAX, 0), 3, 11).is_err());
    assert_eq!(parse_decimal("1.234,50").unwrap().plain(), "1234.50");
    assert_eq!(decimal(Decimal::new(12345, 3), 3), "12,345");
}

#[test]
fn equal_keys_keep_their_order() {
    let keys = vec![vec![2, 1], vec![1, 9], vec![2, 0], vec![1, 9]];
    assert_eq!(ranks(&keys), [1, 3, 2, 0]);
}

#[test]
fn a_clean_title_stays_clean() {
    let clean = strip_trailing_totals("Erdarbeiten 1.234,50 EUR 99,00 EUR");
    assert_eq!(strip_trailing_totals(&clean), clean);
    assert_eq!(clean, "Erdarbeiten");
}

#[test]
fn a_repaired_position_stays_repaired() {
    let mut position = Position {
        oz: "01.01".into(),
        quantity: Some(Decimal::new(3, 0)),
        unit_price: Some(Decimal::new(250, 2)),
        total_price: Some(Decimal::new(900, 2)),
        ..Position::default()
    };
    let mut warnings = Vec::new();
    assert!(repair_position(&mut position, &mut warnings));
    assert_eq!(position.total_price.unwrap().plain(), "7.50");
    assert_eq!(warnings.len(), 1);
    let mut again = Vec::new();
    assert!(repair_position(&mut position, &mut again));
    assert_eq!(position.total_price.unwrap().plain(), "7.50");
    assert!(again.is_empty());
}

#[test]
fn print_wraps_lines_and_replaces_typographic_marks() {
    assert_eq!(wrap("eins zwei drei\n\nvier", 9), ["eins zwei", "drei", "vier"]);
    assert_eq!(printable("„A“ – ’b’"), "„A\" - 'b'");
    let item = GaebItem {
        quantity: Some(Decimal::new(1500, 3)),
        unit: "m²".into(),
        unit_price: Some(Decimal::new(450, 2)),
        ..GaebItem::default()
    };
    let printed = print_item(&item);
    assert_eq!(printed.short_lines, ["(ohne Kurztext)"]);
    assert!(printed.long_lines.is_empty());
    assert_eq!(printed.quantity, "1.5 m²");
    assert_eq!(printed.amount, "4.5 EUR");
}
