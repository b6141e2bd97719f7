//! What holds of bills that are read from the text of a printed document.

use crate::bill_laws::law_filed_once;
use crate::decimal::{numeral, read_number, Dec};
use crate::gaeb2000::byte_slice;
use crate::gaeb90_laws::lemma_join_front;
use crate::model::{empty_boq, empty_position, BoqView, NodeView, PositionView};
use crate::export_laws::headings_of;
use crate::outline::{heading_index, lemma_split_len};
use crate::outline_laws::{
    lemma_heading_changed, lemma_heading_put_in, lemma_index_found, lemma_no_dots,
    lemma_path_number, lemma_position_added, placed_heading, well_placed,
};
use crate::parser::{
    bill_of_text, bill_warnings, completed, date_like, described, filed, filled_lines,
    german_number, heading_number, heading_of, in_front, last_page, leading_price, line_kind, noise, pages_read,
    path_of, position_number, position_warnings, price_gap, priced, quantity_line, quantity_taken,
    seen_in, size, titled, with_heading_titles, with_leading_price, with_metadata, with_read_heading,
    with_trailing_quantity,
    Gathered, HeadingView, LineKind, ReadView, SeenView,
};
use crate::patterns::{
    first_match, group, group_text, is_matched, FoundView, FOOTER, HEADING, POSITION_START,
    PRICED_DATA, SIX_PART_PROFILE, SUM, TRAILING_QUANTITY,
};
use crate::price_laws::{lemma_difference, lemma_pow10_small};
use crate::text::{
    all_digits, contains, digits_value, is_digit, join, lemma_ascii_bytes, lemma_ascii_text,
    lemma_position_of, lemma_replace_absent, lemma_replace_char_concat, lines, replace,
    single_spaced, split, trim, unsigned_in,
};
use crate::tree::positions_of;
use vstd::prelude::*;

verus! {

/// Whether texts are rows of digits, none of them empty.
pub open spec fn digit_rows(p: Seq<Seq<char>>) -> bool {
    forall|i: int| 0 <= i < p.len() ==> (#[trigger] p[i]).len() > 0 && all_digits(p[i])
}

pub proof fn lemma_split_front(a: Seq<char>, rest: Seq<char>, c: char)
    requires
        !a.contains(c),
    ensures
        split(a + seq![c] + rest, c) == seq![a] + split(rest, c),
{
    let s = a + seq![c] + rest;
    let n = a.len() as int;
    assert forall|i: int| 0 <= i < n implies s[i] != c by {
        assert(s[i] == a[i]);
        assert(a.contains(a[i]));
    }
    assert(s[n] == c);
    lemma_position_of(s, c, n);
    assert(s.take(n) =~= a);
    assert(s.skip(n + 1) =~= rest);
}

pub proof fn lemma_split_whole(a: Seq<char>, c: char)
    requires
        !a.contains(c),
    ensures
        split(a, c) == seq![a],
{
    assert forall|i: int| 0 <= i < a.len() implies a[i] != c by {
        assert(a.contains(a[i]));
    }
    lemma_position_of(a, c, a.len() as int);
}

/// Splitting undoes joining, where no part holds the separator.
pub proof fn law_split_undoes_join(p: Seq<Seq<char>>)
    requires
        p.len() > 0,
        forall|i: int| 0 <= i < p.len() ==> !(#[trigger] p[i]).contains('.'),
    ensures
        split(join(p, "."@), '.') == p,
    decreases p.len(),
{
    reveal_strlit(".");
    assert("."@ =~= seq!['.']);
    if p.len() == 1 {
        assert(!p[0].contains('.'));
        lemma_split_whole(p[0], '.');
        assert(p =~= seq![p[0]]);
    } else {
        assert(!p[0].contains('.'));
        lemma_join_front(p, "."@);
        assert forall|i: int| 0 <= i < p.skip(1).len() implies !(#[trigger] p.skip(1)[i]).contains(
            '.',
        ) by {
            assert(p.skip(1)[i] == p[i + 1]);
        }
        law_split_undoes_join(p.skip(1));
        lemma_split_front(p[0], join(p.skip(1), "."@), '.');
        assert(p =~= seq![p[0]] + p.skip(1));
    }
}

pub proof fn lemma_digits_plain(s: Seq<char>)
    requires
        all_digits(s),
    ensures
        size(s) == s.len(),
        !s.contains('.'),
        !s.contains(','),
        !s.contains('-'),
        !s.contains('+'),
{
    assert forall|i: int| 0 <= i < s.len() implies '\0' <= #[trigger] s[i] <= '\u{7f}' by {
        assert(is_digit(s[i]));
    }
    lemma_ascii_text(s);
    assert forall|i: int| 0 <= i < s.len() implies s[i] != '.' && s[i] != ',' && s[i] != '-' && s[i]
        != '+' by {
        assert(is_digit(s[i]));
    }
}

pub proof fn lemma_digit_parts(p: Seq<Seq<char>>)
    requires
        p.len() > 0,
        digit_rows(p),
    ensures
        split(join(p, "."@), '.') == p,
        forall|i: int| 0 <= i < p.len() ==> size(#[trigger] p[i]) == p[i].len(),
{
    assert forall|i: int| 0 <= i < p.len() implies !(#[trigger] p[i]).contains('.') && size(p[i])
        == p[i].len() by {
        lemma_digits_plain(p[i]);
    }
    law_split_undoes_join(p);
}

/// Whether rows of digits are day, month and a year of four digits between 1900 and 2100.
pub open spec fn calendar_date(p: Seq<Seq<char>>) -> bool {
    &&& p.len() == 3
    &&& p[2].len() == 4
    &&& 1 <= digits_value(p[0]) <= 31
    &&& 1 <= digits_value(p[1]) <= 12
    &&& 1900 <= digits_value(p[2]) <= 2100
}

proof fn lemma_date(p: Seq<Seq<char>>)
    requires
        digit_rows(p),
    ensures
        date_like(p) == calendar_date(p),
{
    if p.len() == 3 {
        assert(p[0].len() > 0 && p[1].len() > 0 && p[2].len() > 0);
        lemma_digits_plain(p[0]);
        lemma_digits_plain(p[1]);
        lemma_digits_plain(p[2]);
        assert(is_digit(p[0][0]) && is_digit(p[1][0]) && is_digit(p[2][0]));
    }
}

proof fn lemma_no_noise(line: Seq<char>)
    requires
        line.len() > 0,
        is_digit(line[0]),
    ensures
        !noise(line, false),
{
    reveal_strlit("in EUR in EUR");
    reveal_strlit("Angebot");
    reveal_strlit("Angebotsaufforderung_");
    reveal_strlit("Auftraggeber ");
    reveal_strlit("Bieter ");
    reveal_strlit("Druckdatum:");
    reveal_strlit("Projekt ");
    reveal_strlit("Projekt:");
    reveal_strlit("LV ");
    reveal_strlit("LV:");
    reveal_strlit("Mollmann Beratende Ingenieure GmbH");
    reveal_strlit("T. +49 ");
    reveal_strlit("Übertrag:");
    reveal_strlit("OZ Menge / Einheit EP GB");
    reveal_strlit("OZ Leistungsbeschreibung");
    assert forall|p: Seq<char>| p.len() > 0 && !is_digit(p[0]) implies !(#[trigger] p.is_prefix_of(
        line,
    )) by {
        if p.is_prefix_of(line) {
            assert(p[0] == line.subrange(0, p.len() as int)[0]);
        }
    }
}

/// A line that starts with a number of digits starts a position if and only if the number
/// is no date and has three parts, the last of three digits or more or followed by a dot,
/// or four parts, the last of three digits or more, or six parts; in a document in which
/// positions have six parts, if and only if it has six parts.
pub proof fn law_position_lines(
    line: Seq<char>,
    seen: SeenView,
    open: bool,
    six_parts: bool,
    p: Seq<Seq<char>>,
)
    requires
        line.len() > 0,
        is_digit(line[0]),
        !seen.footer,
        p.len() > 0,
        digit_rows(p),
        seen.start is Some,
        group_text(seen.start->0, 1) == join(p, "."@),
    ensures
        ({
            let dotted = group(seen.start->0, 2) is Some;
            &&& p.len() == 3 && p[2].len() >= 3 && !calendar_date(p) && !six_parts ==> line_kind(
                line,
                seen,
                open,
                six_parts,
            ) == LineKind::Position
            &&& p.len() == 4 && p[3].len() >= 3 && !six_parts ==> line_kind(
                line,
                seen,
                open,
                six_parts,
            ) == LineKind::Position
            &&& (line_kind(line, seen, open, six_parts) == LineKind::Position) <==> (
            !calendar_date(p) && (if six_parts {
                p.len() == 6
            } else {
                (p.len() == 3 && (dotted || p[2].len() >= 3)) || (p.len() == 4 && p[3].len() >= 3)
                    || p.len() == 6
            }))
        }),
{
    lemma_no_noise(line);
    lemma_digit_parts(p);
    lemma_date(p);
    if p.len() == 3 {
        assert(size(p[2]) == p[2].len());
    }
    if p.len() == 4 {
        assert(size(p[3]) == p[3].len());
    }
}

/// A line that starts with a number of digits and does not start a position is a heading
/// if and only if the number has at most three parts of two digits each, or, with a dot
/// behind it, parts of one or two digits; a number of a single part is none while a
/// position is being read.
pub proof fn law_heading_lines(
    line: Seq<char>,
    seen: SeenView,
    open: bool,
    six_parts: bool,
    p: Seq<Seq<char>>,
)
    requires
        line.len() > 0,
        is_digit(line[0]),
        !seen.footer,
        p.len() > 0,
        digit_rows(p),
        seen.heading is Some,
        group_text(seen.heading->0, 1) == join(p, "."@),
        line_kind(line, seen, open, six_parts) != LineKind::Position,
    ensures
        (line_kind(line, seen, open, six_parts) == LineKind::Heading) <==> (!(open && p.len() == 1)
            && (if group(seen.heading->0, 2) is Some {
            forall|i: int| 0 <= i < p.len() ==> (#[trigger] p[i]).len() <= 2
        } else {
            p.len() <= 3 && forall|i: int| 0 <= i < p.len() ==> (#[trigger] p[i]).len() == 2
        })),
{
    lemma_no_noise(line);
    lemma_digit_parts(p);
    assert forall|i: int| 0 <= i < p.len() implies size(#[trigger] p[i]) == p[i].len() by {}
    let q = split(join(p, "."@), '.');
    assert(q == p);
}

/// Digits and points, the points left out.
pub open spec fn pointless(s: Seq<char>) -> Seq<char>
    decreases s.len(),
{
    if s.len() == 0 {
        seq![]
    } else if s.last() == '.' {
        pointless(s.drop_last())
    } else {
        pointless(s.drop_last()).push(s.last())
    }
}

/// Whether a text is made of digits and points.
pub open spec fn digits_and_points(s: Seq<char>) -> bool {
    forall|i: int| 0 <= i < s.len() ==> is_digit(#[trigger] s[i]) || s[i] == '.'
}

proof fn lemma_pointless(s: Seq<char>)
    requires
        digits_and_points(s),
    ensures
        replace(s, "."@, ""@) == pointless(s),
        all_digits(pointless(s)),
    decreases s.len(),
{
    reveal_strlit(".");
    reveal_strlit("");
    assert("."@ =~= seq!['.']);
    assert(""@ =~= Seq::<char>::empty());
    if s.len() > 0 {
        let front = s.drop_last();
        let end = seq![s.last()];
        assert forall|i: int| 0 <= i < front.len() implies is_digit(#[trigger] front[i]) || front[i]
            == '.' by {
            assert(front[i] == s[i]);
        }
        lemma_pointless(front);
        assert(s =~= front + end);
        lemma_replace_char_concat(front, end, "."@, ""@);
        if s.last() == '.' {
            assert(end =~= "."@);
            assert(end.subrange(0, 1) =~= "."@);
            assert(end.skip(1) =~= Seq::<char>::empty());
            assert(replace(Seq::<char>::empty(), "."@, ""@) =~= Seq::<char>::empty());
            assert(replace(end, "."@, ""@) =~= Seq::<char>::empty());
            assert(pointless(front) + Seq::<char>::empty() =~= pointless(front));
        } else {
            assert(is_digit(s[s.len() - 1]));
            assert(!end.contains('.'));
            lemma_replace_absent(end, "."@, ""@);
            assert(pointless(front) + end =~= pointless(front).push(s.last()));
        }
    }
}

pub proof fn lemma_numeral(whole: Seq<char>, fraction: Seq<char>, negative: bool)
    requires
        all_digits(whole),
        all_digits(fraction),
        (whole + fraction).len() > 0,
        (Dec { mantissa: digits_value(whole + fraction) as int, scale: fraction.len() }).fits(),
    ensures
        numeral(
            (if negative {
                seq!['-']
            } else {
                seq![]
            }) + whole + seq!['.'] + fraction,
        ) == Some(
            Dec {
                mantissa: if negative {
                    -(digits_value(whole + fraction) as int)
                } else {
                    digits_value(whole + fraction) as int
                },
                scale: fraction.len(),
            },
        ),
{
    let sign: Seq<char> = if negative {
        seq!['-']
    } else {
        seq![]
    };
    let body = whole + seq!['.'] + fraction;
    let s = sign + whole + seq!['.'] + fraction;
    let n = whole.len() as int;
    lemma_digits_plain(whole);
    assert forall|i: int| 0 <= i < n implies body[i] != '.' by {
        assert(body[i] == whole[i]);
        assert(whole.contains(whole[i]));
    }
    assert(body[n] == '.');
    lemma_position_of(body, '.', n);
    assert(body.take(n) =~= whole);
    assert(body.skip(n + 1) =~= fraction);
    if negative {
        assert(s.skip(1) =~= body);
    } else {
        assert(s =~= body);
        if n > 0 {
            assert(is_digit(whole[0]));
            assert(s[0] == whole[0]);
        }
    }
}

/// A number with a decimal comma, and points anywhere in front of it, is read as its
/// digits, with as many decimal places as stand behind the comma; a minus sign in front
/// makes it negative.
pub proof fn law_comma_number(whole: Seq<char>, fraction: Seq<char>, negative: bool)
    requires
        digits_and_points(whole),
        all_digits(fraction),
        (pointless(whole) + fraction).len() > 0,
        (Dec {
            mantissa: digits_value(pointless(whole) + fraction) as int,
            scale: fraction.len(),
        }).fits(),
    ensures
        german_number(
            Some(
                (if negative {
                    seq!['-']
                } else {
                    seq![]
                }) + whole + seq![','] + fraction,
            ),
        ) == Some(
            Dec {
                mantissa: if negative {
                    -(digits_value(pointless(whole) + fraction) as int)
                } else {
                    digits_value(pointless(whole) + fraction) as int
                },
                scale: fraction.len(),
            },
        ),
{
    reveal_strlit(".");
    reveal_strlit("");
    reveal_strlit(",");
    assert("."@ =~= seq!['.']);
    assert(","@ =~= seq![',']);
    assert(""@ =~= Seq::<char>::empty());
    let sign: Seq<char> = if negative {
        seq!['-']
    } else {
        seq![]
    };
    let comma = seq![','];
    let s = sign + whole + comma + fraction;
    let d = pointless(whole);
    lemma_pointless(whole);
    lemma_digits_plain(fraction);
    lemma_digits_plain(d);
    assert(!sign.contains('.') && !sign.contains(','));
    assert(!comma.contains('.'));
    lemma_replace_char_concat(sign + whole + comma, fraction, "."@, ""@);
    lemma_replace_char_concat(sign + whole, comma, "."@, ""@);
    lemma_replace_char_concat(sign, whole, "."@, ""@);
    lemma_replace_absent(sign, "."@, ""@);
    lemma_replace_absent(comma, "."@, ""@);
    lemma_replace_absent(fraction, "."@, ""@);
    let t = sign + d + comma + fraction;
    assert(replace(s, "."@, ""@) == t);
    lemma_replace_char_concat(sign + d + comma, fraction, ","@, "."@);
    lemma_replace_char_concat(sign + d, comma, ","@, "."@);
    lemma_replace_char_concat(sign, d, ","@, "."@);
    lemma_replace_absent(sign, ","@, "."@);
    lemma_replace_absent(d, ","@, "."@);
    lemma_replace_absent(fraction, ","@, "."@);
    assert(comma.subrange(0, 1) =~= ","@);
    assert(comma.skip(1) =~= Seq::<char>::empty());
    assert(replace(Seq::<char>::empty(), ","@, "."@) =~= Seq::<char>::empty());
    assert(replace(comma, ","@, "."@) =~= seq!['.']);
    assert(replace(t, ","@, "."@) == sign + d + seq!['.'] + fraction);
    lemma_numeral(d, fraction, negative);
}

/// Where nothing is stated there is no number.
pub proof fn law_no_number()
    ensures
        german_number(None) is None,
{
}

/// A price line gives its quantity, its unit, its unit price and its total, in this order,
/// each to the field of its name, and leaves number, texts and pages alone. A remark that
/// only a unit price is asked for marks the position.
pub proof fn law_price_line_fields(
    p: PositionView,
    g: Seq<Option<FoundView>>,
    source: Seq<char>,
)
    ensures
        ({
            let r = priced(p, g, source);
            &&& r.quantity == german_number(group(g, 1))
            &&& r.unit == group(g, 2)
            &&& r.unit_price == german_number(group(g, 3))
            &&& r.total_price == german_number(group(g, 4))
            &&& r.oz == p.oz && r.short_text == p.short_text && r.long_text == p.long_text
            &&& r.page_from == p.page_from && r.page_to == p.page_to
            &&& contains(source, "Nur Einh.-Pr."@) ==> r.price_only && r.provisional
            &&& !contains(source, "Nur Einh.-Pr."@) ==> r.price_only == p.price_only
                && r.provisional == p.provisional
        }),
{
}

/// A price at the end of a line gives its quantity, its unit, its unit price and its total
/// likewise; the remark is a group of its own. What stands in front of the price stays as
/// a line of the text, and no other line is touched.
pub proof fn law_trailing_price_fields(v: Gathered, index: nat, g: Seq<Option<FoundView>>)
    requires
        index < v.lines.len(),
    ensures
        ({
            let r = quantity_taken(v, index, g);
            let rest = in_front(v.lines[index as int], g);
            &&& r.position.quantity == german_number(group(g, 1))
            &&& r.position.unit == group(g, 2)
            &&& r.position.unit_price == german_number(group(g, 3))
            &&& r.position.total_price == german_number(group(g, 4))
            &&& r.position.oz == v.position.oz
            &&& r.position.short_text == v.position.short_text
            &&& r.position.long_text == v.position.long_text
            &&& r.position.page_from == v.position.page_from
            &&& r.position.page_to == v.position.page_to
            &&& group(g, 5) is Some ==> r.position.price_only && r.position.provisional
            &&& group(g, 5) is None ==> r.position.price_only == v.position.price_only
                && r.position.provisional == v.position.provisional
            &&& rest.len() > 0 ==> r.lines.len() == v.lines.len() && r.lines[index as int] == rest
            &&& rest.len() == 0 ==> r.lines.len() + 1 == v.lines.len()
            &&& forall|k: int| 0 <= k < index ==> #[trigger] r.lines[k] == v.lines[k]
            &&& forall|k: int|
                index < k < v.lines.len() ==> #[trigger] v.lines[k] == r.lines[if rest.len() > 0 {
                    k
                } else {
                    k - 1
                }]
        }),
{
}

pub proof fn lemma_titles_keep(nodes: Seq<NodeView>, headings: Seq<HeadingView>)
    ensures
        positions_of(with_heading_titles(nodes, headings)) == positions_of(nodes),
        with_heading_titles(nodes, headings).len() == nodes.len(),
    decreases nodes,
{
    if nodes.len() > 0 {
        lemma_titles_keep(nodes.drop_last(), headings);
        lemma_titles_keep(nodes.last().children, headings);
        let after = with_heading_titles(nodes, headings);
        assert(after.drop_last() =~= with_heading_titles(nodes.drop_last(), headings));
    }
}

pub proof fn lemma_metadata_keeps(boq: BoqView, all: Seq<Seq<char>>, n: nat)
    ensures
        with_metadata(boq, all, n).roots == boq.roots,
        with_metadata(boq, all, n).warnings == boq.warnings,
    decreases n,
{
    if n > 0 {
        lemma_metadata_keeps(boq, all, (n - 1) as nat);
    }
}

/// Lines in which no position starts leave a document without positions.
proof fn lemma_front_read(
    start: ReadView,
    all: Seq<Seq<char>>,
    n: nat,
    page: usize,
    six_parts: bool,
)
    requires
        n <= all.len(),
        start.current is None,
        start.lines.len() == 0,
        forall|k: int|
            0 <= k < n ==> first_match(POSITION_START@, single_spaced(#[trigger] all[k])) is None,
    ensures
        ({
            let s = start.page_lines(all, n, page, six_parts);
            &&& s.current is None
            &&& s.lines == start.lines
            &&& s.boq == start.boq
        }),
    decreases n,
{
    if n > 0 {
        lemma_front_read(start, all, (n - 1) as nat, page, six_parts);
        assert(first_match(POSITION_START@, single_spaced(all[n - 1])) is None);
    }
}

/// The number line of a position and its price line.
#[verifier::ext_equal]
pub struct PositionText {
    /// The line with the number.
    pub first: Seq<char>,
    /// The line with the price.
    pub second: Seq<char>,
    /// The parts of the number.
    pub number: Seq<Seq<char>>,
    /// What stands behind the number.
    pub title: Seq<char>,
    /// The groups that are found in the line with the number.
    pub start: Seq<Option<FoundView>>,
    /// The groups that are found in the line with the price.
    pub price: Seq<Option<FoundView>>,
}

impl PositionText {
    /// The first line starts with a number of three or four parts, the last of three digits
    /// or more, that is no date and has no dot behind it, and goes on with a title. The
    /// second line is a quantity with prices from its start to its end, and neither a
    /// heading nor a sum.
    pub open spec fn holds(self) -> bool {
        &&& self.first.len() > 0 && is_digit(self.first[0])
        &&& self.second.len() > 0 && is_digit(self.second[0])
        &&& !is_matched(FOOTER@, self.first)
        &&& !is_matched(FOOTER@, self.second)
        &&& digit_rows(self.number)
        &&& !calendar_date(self.number)
        &&& (self.number.len() == 3 && self.number[2].len() >= 3) || (self.number.len() == 4
            && self.number[3].len() >= 3)
        &&& self.title.len() > 0
        &&& first_match(POSITION_START@, self.first) == Some(self.start)
        &&& group(self.start, 1) == Some(join(self.number, "."@))
        &&& group(self.start, 2) is None
        &&& group(self.start, 3) == Some(self.title)
        &&& first_match(PRICED_DATA@, self.title) is None
        &&& first_match(PRICED_DATA@, self.title + " "@ + self.second) is None
        &&& first_match(TRAILING_QUANTITY@, self.title) is None
        &&& first_match(POSITION_START@, self.second) is None
        &&& first_match(HEADING@, self.second) is None
        &&& !is_matched(SUM@, self.second)
        &&& first_match(TRAILING_QUANTITY@, self.second) == Some(self.price)
        &&& self.price.len() > 0 && self.price[0] is Some && self.price[0]->0.start == 0
    }

    /// The position that the two lines state, on this page.
    pub open spec fn stated_in(self, p: PositionView, page: usize) -> bool {
        &&& p.oz == join(self.number, "."@)
        &&& p.quantity == german_number(group(self.price, 1))
        &&& p.unit == group(self.price, 2)
        &&& p.unit_price == german_number(group(self.price, 3))
        &&& p.total_price == german_number(group(self.price, 4))
        &&& p.short_text == self.title
        &&& p.long_text.len() == 0
        &&& p.page_from == Some(page) && p.page_to == Some(page)
        &&& p.price_only == (group(self.price, 5) is Some)
        &&& p.provisional == (group(self.price, 5) is Some)
    }
}

proof fn lemma_price_line_read(t: PositionText, s: ReadView, page: usize)
    requires
        t.holds(),
        s.current is None,
        s.lines.len() == 0,
    ensures
        ({
            let after = s.line(t.first, page, false).line(t.second, page, false);
            &&& after.current == Some(
                PositionView {
                    oz: join(t.number, "."@),
                    page_from: Some(page),
                    ..empty_position()
                },
            )
            &&& after.lines == seq![t.title, t.second]
            &&& after.boq == s.boq
        }),
{
    law_position_lines(t.first, seen_in(t.first), false, false, t.number);
    let one = s.line(t.first, page, false);
    assert(one.lines =~= seq![t.title]);
    lemma_no_noise(t.second);
    reveal_strlit("Titelsumme:");
    reveal_strlit("Gewerksumme:");
    assert(!"Titelsumme:"@.is_prefix_of(t.second)) by {
        if "Titelsumme:"@.is_prefix_of(t.second) {
            assert("Titelsumme:"@[0] == t.second.subrange(0, "Titelsumme:"@.len() as int)[0]);
        }
    }
    assert(!"Gewerksumme:"@.is_prefix_of(t.second)) by {
        if "Gewerksumme:"@.is_prefix_of(t.second) {
            assert("Gewerksumme:"@[0] == t.second.subrange(0, "Gewerksumme:"@.len() as int)[0]);
        }
    }
    assert(line_kind(t.second, seen_in(t.second), true, false) == LineKind::Text);
    reveal_strlit("Eventualposition ohne GB");
    reveal_strlit("Fortsetzung von vorheriger Seite");
    reveal_strlit("Fortsetzung auf nächster Seite");
    let two = one.line(t.second, page, false);
    assert(two == one.continued(t.second, page));
    assert(two.lines =~= seq![t.title, t.second]);
}

proof fn lemma_price_line_completed(t: PositionText, page: usize)
    requires
        t.holds(),
    ensures
        t.stated_in(
            completed(
                Gathered {
                    position: PositionView {
                        oz: join(t.number, "."@),
                        page_from: Some(page),
                        ..empty_position()
                    },
                    lines: seq![t.title, t.second],
                },
                page,
            ),
            page,
        ),
{
    let all = seq![t.title, t.second];
    let position = PositionView {
        oz: join(t.number, "."@),
        page_from: Some(page),
        page_to: Some(page),
        ..empty_position()
    };
    let v = Gathered { position, lines: all };
    assert(all.take(2) =~= all);
    assert(all.drop_last() =~= seq![t.title]);
    assert(join(seq![t.title], " "@) == t.title);
    assert(join(all, " "@) == t.title + " "@ + t.second);
    assert(all.take(1) =~= seq![t.title]);
    assert(leading_price(v, 0) == v);
    assert(leading_price(v, 1) == leading_price(v, 0));
    assert(leading_price(v, 2) == leading_price(v, 1));
    assert(with_leading_price(v) == v);
    assert(quantity_line(all, 1) == Some(1nat));
    assert(quantity_line(all, 0) == quantity_line(all, 1));
    let taken = quantity_taken(v, 1, t.price);
    assert(with_trailing_quantity(v) == taken);
    let none = Seq::<u8>::empty();
    lemma_ascii_bytes(none);
    assert(vstd::utf8::encode_utf8(t.second).subrange(0, 0) =~= none);
    assert(byte_slice(t.second, 0, 0) =~= Seq::<char>::empty());
    assert(trim(Seq::<char>::empty()) =~= Seq::<char>::empty());
    assert(in_front(t.second, t.price).len() == 0);
    assert(taken.lines =~= seq![t.title]);
    assert(filled_lines(seq![t.title]) =~= seq![t.title]) by {
        assert(seq![t.title].drop_last() =~= Seq::<Seq<char>>::empty());
        assert(filled_lines(Seq::<Seq<char>>::empty()) =~= Seq::<Seq<char>>::empty());
    }
    assert(seq![t.title].skip(1) =~= Seq::<Seq<char>>::empty());
}

/// Whether the arithmetic on the prices of a position stays within what a number can hold.
pub open spec fn comparable(p: PositionView) -> bool {
    p.quantity is Some && p.unit_price is Some && p.total_price is Some ==> price_gap(
        p.quantity->0,
        p.unit_price->0,
        p.total_price->0,
    ) is Some
}

/// The bill read from a text with one number line of a position and its price line behind
/// it, and in front of them only lines in which no position starts, has exactly one
/// position: that of the two lines, with its number, quantity, unit, prices and title, and
/// it stands under the headings that its number calls for.
pub proof fn law_position_read_from_text(
    source: Seq<char>,
    text: Seq<char>,
    front: Seq<Seq<char>>,
    first: Seq<char>,
    second: Seq<char>,
    t: PositionText,
)
    requires
        !text.contains('\u{c}'),
        !is_matched(SIX_PART_PROFILE@, text),
        lines(text) == front.push(first).push(second),
        forall|k: int|
            0 <= k < front.len() ==> first_match(
                POSITION_START@,
                single_spaced(#[trigger] front[k]),
            ) is None,
        t.first == single_spaced(first),
        t.second == single_spaced(second),
        t.holds(),
    ensures
        ({
            let bill = bill_of_text(source, text);
            &&& bill is Ok ==> positions_of(bill->Ok_0.roots).len() == 1 && t.stated_in(
                positions_of(bill->Ok_0.roots)[0],
                1,
            ) && well_placed(bill->Ok_0.roots, seq![])
            &&& (forall|p: PositionView| #[trigger] t.stated_in(p, 1) ==> comparable(p)) ==> bill is Ok
        }),
{
    broadcast use vstd::seq_lib::group_to_multiset_ensures;

    let pages = split(text, '\u{c}');
    lemma_split_whole(text, '\u{c}');
    assert(pages == seq![text]);
    let all = lines(text);
    let n = front.len();
    let empty = empty_boq(source);
    let zero = pages_read(empty, pages, 0, false);
    lemma_metadata_keeps(empty, all, all.len());
    let s0 = ReadView { boq: with_metadata(empty, all, all.len()), ..zero };
    assert(pages_read(empty, pages, 1, false) == zero.page(text, 1, false));
    assert forall|k: int| 0 <= k < n implies first_match(
        POSITION_START@,
        single_spaced(#[trigger] all[k]),
    ) is None by {
        assert(all[k] == front[k]);
    }
    lemma_front_read(s0, all, n, 1, false);
    let s1 = s0.page_lines(all, n, 1, false);
    assert(s1.lines =~= Seq::<Seq<char>>::empty());
    assert(all[n as int] == first);
    assert(all[n as int + 1] == second);
    let s2 = s0.page_lines(all, n + 1, 1, false);
    assert(s2 == s1.line(t.first, 1, false));
    let s3 = s0.page_lines(all, n + 2, 1, false);
    assert(s3 == s2.line(t.second, 1, false));
    assert(all.len() == n + 2);
    lemma_price_line_read(t, s1, 1);
    lemma_price_line_completed(t, 1);
    assert(last_page(pages, 1) == 1) by {
        assert(last_page(pages, 0) == 1);
    }
    let done = completed(
        Gathered { position: s3.current->0, lines: s3.lines },
        1,
    );
    assert(t.stated_in(done, 1));
    let read = s3.finished(1);
    assert(read == s3.filing(done));
    let path = path_of(done.oz);
    lemma_split_len(join(split(done.oz, '.').drop_last(), "."@), '.');
    assert(s3.boq.roots =~= Seq::<NodeView>::empty());
    law_filed_once(s3.boq.roots, path, 0, s3.headings, 1, done);
    let roots = filed(s3.boq.roots, path, 0, s3.headings, 1, done);
    let found = positions_of(roots);
    assert(positions_of(s3.boq.roots) =~= Seq::<PositionView>::empty());
    assert(found.to_multiset().len() == 1);
    assert(found.len() == 1);
    assert(found.to_multiset().count(done) > 0);
    assert(found.contains(done));
    assert(found[0] == done);
    lemma_titles_keep(roots, s3.headings);
    lemma_digit_parts(t.number);
    law_filed_in_place(s3, done);
    lemma_titles_placed(roots, s3.headings, seq![]);
    let titled = with_heading_titles(roots, s3.headings);
    let ps = positions_of(titled);
    assert(ps == found);
    assert(pages.len() == 1);
    assert(bill_warnings(ps, 0) is Some);
    assert(bill_warnings(ps, 1) is Some == position_warnings(ps.take(0), ps[0]) is Some);
}

pub proof fn lemma_filed_well(
    nodes: Seq<NodeView>,
    path: Seq<Seq<char>>,
    index: nat,
    headings: Seq<HeadingView>,
    page: usize,
    p: PositionView,
)
    requires
        index < path.len(),
        forall|i: int| 0 <= i < path.len() ==> !(#[trigger] path[i]).contains('.'),
        well_placed(nodes, path.take(index as int)),
        split(p.oz, '.').len() == path.len() + 1,
        split(p.oz, '.').drop_last() == path,
    ensures
        well_placed(filed(nodes, path, index, headings, page, p), path.take(index as int)),
    decreases path.len() - index,
{
    let n = index as int + 1;
    let above = path.take(index as int);
    let here = path.take(n);
    let oz = join(here, "."@);
    lemma_path_number(path, n);
    assert(here.drop_last() =~= above);
    lemma_index_found(nodes, oz);
    let heading = heading_of(headings, oz);
    let at = heading_index(nodes, oz) as int;
    let all = with_read_heading(nodes, oz, index + 1, heading, page);
    if at >= nodes.len() {
        let node = all.last();
        assert(all =~= nodes.push(node));
        assert(placed_heading(node, above));
        lemma_heading_put_in(nodes, above, node);
    }
    let old_node = all[at];
    let node = titled(old_node, heading);
    assert(node.oz == oz);
    assert(placed_heading(old_node, above));
    assert(placed_heading(node, above));
    assert(well_placed(old_node.children, split(old_node.oz, '.')));
    if n >= path.len() {
        assert(here =~= path);
        lemma_position_added(node, above, p);
        lemma_heading_changed(
            all,
            above,
            at,
            NodeView { positions: node.positions.push(p), ..node },
        );
    } else {
        lemma_filed_well(node.children, path, index + 1, headings, page, p);
        let children = filed(node.children, path, index + 1, headings, page, p);
        lemma_heading_changed(all, above, at, NodeView { children, ..node });
    }
}

pub proof fn lemma_titles_placed(nodes: Seq<NodeView>, headings: Seq<HeadingView>, above: Seq<Seq<char>>)
    requires
        well_placed(nodes, above),
    ensures
        well_placed(with_heading_titles(nodes, headings), above),
        with_heading_titles(nodes, headings).len() == nodes.len(),
        forall|i: int|
            0 <= i < nodes.len() ==> (#[trigger] with_heading_titles(nodes, headings)[i]).oz
                == nodes[i].oz,
    decreases nodes,
{
    let after = with_heading_titles(nodes, headings);
    if nodes.len() > 0 {
        let front = nodes.drop_last();
        let last = nodes[nodes.len() - 1];
        assert(well_placed(front, above)) by {
            assert forall|i: int, j: int| 0 <= i < j < front.len() implies (
            #[trigger] front[i]).oz != (#[trigger] front[j]).oz by {
                assert(front[i] == nodes[i] && front[j] == nodes[j]);
            }
            assert forall|i: int| 0 <= i < front.len() implies placed_heading(
                #[trigger] front[i],
                above,
            ) by {
                assert(front[i] == nodes[i]);
            }
            assert forall|i: int| #![trigger front[i]] 0 <= i < front.len() implies well_placed(
                front[i].children,
                split(front[i].oz, '.'),
            ) by {
                assert(front[i] == nodes[i]);
            }
        }
        lemma_titles_placed(front, headings, above);
        assert(placed_heading(last, above));
        assert(well_placed(last.children, split(last.oz, '.')));
        lemma_titles_placed(last.children, headings, split(last.oz, '.'));
        let done = with_heading_titles(front, headings);
        assert(after =~= done.push(after.last()));
        let n = front.len() as int;
        assert(after[n].positions == last.positions);
        assert forall|i: int, j: int| 0 <= i < j < after.len() implies (#[trigger] after[i]).oz != (
        #[trigger] after[j]).oz by {
            assert(after[i].oz == nodes[i].oz && after[j].oz == nodes[j].oz) by {
                if i < n {
                    assert(done[i].oz == front[i].oz);
                }
                if j < n {
                    assert(done[j].oz == front[j].oz);
                }
            }
        }
        assert forall|i: int| 0 <= i < after.len() implies placed_heading(
            #[trigger] after[i],
            above,
        ) by {
            if i < n {
                assert(after[i] == done[i]);
            }
        }
        assert forall|i: int| #![trigger after[i]] 0 <= i < after.len() implies well_placed(
            after[i].children,
            split(after[i].oz, '.'),
        ) by {
            if i < n {
                assert(after[i] == done[i]);
            }
        }
        assert forall|i: int| 0 <= i < nodes.len() implies (#[trigger] after[i]).oz
            == nodes[i].oz by {
            if i < n {
                assert(after[i] == done[i]);
                assert(done[i].oz == front[i].oz);
            }
        }
    }
}

/// A position that is filed stands under the heading whose number is its own without the
/// last part, below the headings that this number calls for, whatever headings there were.
pub proof fn law_filed_in_place(state: ReadView, done: PositionView)
    requires
        well_placed(state.boq.roots, seq![]),
        split(done.oz, '.').len() >= 2,
    ensures
        well_placed(state.filing(done).boq.roots, seq![]),
        positions_of(state.filing(done).boq.roots).to_multiset() == positions_of(
            state.boq.roots,
        ).to_multiset().insert(done),
        state.filing(done).current is None,
        state.filing(done).lines.len() == 0,
        state.filing(done).headings == state.headings,
{
    let parts = split(done.oz, '.');
    let path = parts.drop_last();
    lemma_no_dots(done.oz);
    assert forall|i: int| 0 <= i < path.len() implies !(#[trigger] path[i]).contains('.') by {
        assert(path[i] == parts[i]);
    }
    law_split_undoes_join(path);
    assert(path_of(done.oz) == path);
    let page = match done.page_from {
        Some(p) => p,
        None => 0,
    };
    assert(path.take(0) =~= seq![]);
    lemma_filed_well(state.boq.roots, path, 0, state.headings, page, done);
    law_filed_once(state.boq.roots, path, 0, state.headings, page, done);
}

proof fn lemma_heading_of(headings: Seq<HeadingView>, oz: Seq<char>, k: int)
    requires
        0 <= k < headings.len(),
        headings[k].oz == oz,
        forall|m: int| k < m < headings.len() ==> (#[trigger] headings[m]).oz != oz,
    ensures
        heading_of(headings, oz) == Some(headings[k]),
    decreases headings.len(),
{
    if k < headings.len() - 1 {
        assert(headings[headings.len() - 1].oz != oz);
        assert forall|m: int| k < m < headings.len() - 1 implies (
        #[trigger] headings.drop_last()[m]).oz != oz by {
            assert(headings.drop_last()[m] == headings[m]);
        }
        assert(headings.drop_last()[k] == headings[k]);
        lemma_heading_of(headings.drop_last(), oz, k);
    }
}

proof fn lemma_no_heading_of(headings: Seq<HeadingView>, oz: Seq<char>)
    requires
        forall|m: int| 0 <= m < headings.len() ==> (#[trigger] headings[m]).oz != oz,
    ensures
        heading_of(headings, oz) is None,
    decreases headings.len(),
{
    if headings.len() > 0 {
        assert(headings[headings.len() - 1].oz != oz);
        assert forall|m: int| 0 <= m < headings.len() - 1 implies (
        #[trigger] headings.drop_last()[m]).oz != oz by {
            assert(headings.drop_last()[m] == headings[m]);
        }
        lemma_no_heading_of(headings.drop_last(), oz);
    }
}

proof fn lemma_headings_len(nodes: Seq<NodeView>, headings: Seq<HeadingView>)
    ensures
        headings_of(with_heading_titles(nodes, headings)).len() == headings_of(nodes).len(),
    decreases nodes,
{
    if nodes.len() > 0 {
        lemma_headings_len(nodes.drop_last(), headings);
        lemma_headings_len(nodes.last().children, headings);
        let after = with_heading_titles(nodes, headings);
        assert(after.drop_last() =~= with_heading_titles(nodes.drop_last(), headings));
    }
}

/// Each heading of a tree gets the title and the page of the last heading that was read
/// with its number, and keeps its own where none was.
pub proof fn law_heading_titles(nodes: Seq<NodeView>, headings: Seq<HeadingView>, j: int)
    requires
        0 <= j < headings_of(nodes).len(),
    ensures
        ({
            let before = headings_of(nodes)[j];
            let after = headings_of(with_heading_titles(nodes, headings))[j];
            &&& headings_of(with_heading_titles(nodes, headings)).len() == headings_of(nodes).len()
            &&& after.oz == before.oz
            &&& after.level == before.level
            &&& after.positions == before.positions
            &&& forall|k: int| #![trigger headings[k]]
                0 <= k < headings.len() && headings[k].oz == before.oz && (forall|m: int|
                    k < m < headings.len() ==> (#[trigger] headings[m]).oz != before.oz)
                    ==> after.title == headings[k].title && after.page == Some(headings[k].page)
            &&& (forall|m: int| 0 <= m < headings.len() ==> (#[trigger] headings[m]).oz
                != before.oz) ==> after.title == before.title && after.page == before.page
        }),
    decreases nodes,
{
    lemma_headings_len(nodes, headings);
    if nodes.len() > 0 {
        let last = nodes.last();
        let front = nodes.drop_last();
        let after = with_heading_titles(nodes, headings);
        lemma_headings_len(front, headings);
        lemma_headings_len(last.children, headings);
        assert(after.drop_last() =~= with_heading_titles(front, headings));
        let n = headings_of(front).len() as int;
        if j < n {
            law_heading_titles(front, headings, j);
            assert(headings_of(nodes)[j] == headings_of(front)[j]);
            assert(headings_of(after)[j] == headings_of(after.drop_last())[j]);
        } else if j == n {
            assert(headings_of(nodes)[j] == last);
            assert(headings_of(after)[j] == after.last());
            assert forall|k: int| #![trigger headings[k]]
                0 <= k < headings.len() && headings[k].oz == last.oz && (forall|m: int|
                    k < m < headings.len() ==> (#[trigger] headings[m]).oz
                        != last.oz) implies after.last().title == headings[k].title
                && after.last().page == Some(headings[k].page) by {
                lemma_heading_of(headings, last.oz, k);
            }
            if forall|m: int| 0 <= m < headings.len() ==> (#[trigger] headings[m]).oz != last.oz {
                lemma_no_heading_of(headings, last.oz);
            }
        } else {
            law_heading_titles(last.children, headings, j - n - 1);
            assert(headings_of(nodes)[j] == headings_of(last.children)[j - n - 1]);
            assert(headings_of(after)[j] == headings_of(after.last().children)[j - n - 1]);
        }
    }
}

/// A line with a heading ends the position in front of it and is noted with its number,
/// its title without white space at the ends, and its page.
pub proof fn law_heading_noted(state: ReadView, line: Seq<char>, page: usize, six_parts: bool)
    requires
        line_kind(line, seen_in(line), state.current is Some, six_parts) == LineKind::Heading,
    ensures
        ({
            let g = first_match(HEADING@, line)->0;
            let after = state.line(line, page, six_parts);
            &&& after.current is None
            &&& after.headings == state.headings.push(
                HeadingView { oz: group_text(g, 1), title: trim(group_text(g, 3)), page },
            )
            &&& after.preamble == state.preamble
            &&& state.current is None ==> after.boq == state.boq
        }),
{
}

/// A position of which the price is known is complete with its lines: the first that has
/// something on it is its short text, the others are its long text, in order, and it ends
/// on the page on which it is completed, or where it started.
pub proof fn law_description_kept(v: Gathered, page: usize)
    requires
        v.position.quantity is Some,
        v.lines.len() > 0,
        forall|i: int| 0 <= i < v.lines.len() ==> (#[trigger] v.lines[i]).len() > 0,
    ensures
        ({
            let p = completed(v, page);
            &&& p.short_text == v.lines[0]
            &&& p.long_text == join(v.lines.skip(1), "\n"@)
            &&& p.oz == v.position.oz
            &&& p.quantity == v.position.quantity
            &&& p.unit == v.position.unit
            &&& p.unit_price == v.position.unit_price
            &&& p.total_price == v.position.total_price
            &&& p.page_from == v.position.page_from
            &&& p.provisional == v.position.provisional
            &&& p.price_only == v.position.price_only
            &&& p.page_to == Some(
                if v.position.page_from is Some && v.position.page_from->0 > page {
                    v.position.page_from->0
                } else {
                    page
                },
            )
        }),
{
    lemma_all_filled(v.lines);
}

proof fn lemma_all_filled(v: Seq<Seq<char>>)
    requires
        forall|i: int| 0 <= i < v.len() ==> (#[trigger] v[i]).len() > 0,
    ensures
        filled_lines(v) == v,
    decreases v.len(),
{
    if v.len() > 0 {
        assert forall|i: int| 0 <= i < v.len() - 1 implies (#[trigger] v.drop_last()[i]).len() > 0 by {
            assert(v.drop_last()[i] == v[i]);
        }
        lemma_all_filled(v.drop_last());
        assert(v[v.len() - 1].len() > 0);
        assert(v.drop_last().push(v.last()) =~= v);
    }
}

/// A line of text goes to the position that is being read, as one more line behind the
/// others; the remark that a position is optional marks it, and remarks on the turning of
/// the page are left out. Outside of positions it belongs to the preamble, on the first
/// fourteen pages.
pub proof fn law_text_lines(state: ReadView, line: Seq<char>, page: usize)
    ensures
        ({
            let after = state.continued(line, page);
            &&& after.boq == state.boq && after.headings == state.headings
            &&& state.current is Some && line == "Eventualposition ohne GB"@ ==> after.lines
                == state.lines && after.current is Some && after.current->0.provisional
                && after.current->0.price_only && after.current->0.oz == state.current->0.oz
            &&& state.current is Some && (line == "Fortsetzung von vorheriger Seite"@ || line
                == "Fortsetzung auf nächster Seite"@) ==> after == state
            &&& state.current is Some && line != "Eventualposition ohne GB"@ && line
                != "Fortsetzung von vorheriger Seite"@ && line != "Fortsetzung auf nächster Seite"@
                ==> after.lines == state.lines.push(line) && after.current == state.current
            &&& state.current is None && page <= 14 ==> after.preamble == state.preamble.push(line)
            &&& state.current is None && page > 14 ==> after == state
        }),
{
    reveal_strlit("Eventualposition ohne GB");
    reveal_strlit("Fortsetzung von vorheriger Seite");
    reveal_strlit("Fortsetzung auf nächster Seite");
    assert("Eventualposition ohne GB"@[0] == 'E');
    assert("Fortsetzung von vorheriger Seite"@[0] == 'F');
    assert("Fortsetzung auf nächster Seite"@[0] == 'F');
}

/// How many of the first `n` lines of a page start a position.
pub open spec fn starts_on_page(all: Seq<Seq<char>>, n: nat, six_parts: bool) -> nat
    decreases n,
{
    if n == 0 {
        0
    } else {
        let line = single_spaced(all[n - 1]);
        starts_on_page(all, (n - 1) as nat, six_parts) + (if line_kind(
            line,
            seen_in(line),
            false,
            six_parts,
        ) == LineKind::Position {
            1nat
        } else {
            0nat
        })
    }
}

/// How many lines of the first `n` pages start a position.
pub open spec fn starts_in(pages: Seq<Seq<char>>, n: nat, six_parts: bool) -> nat
    decreases n,
{
    if n == 0 {
        0
    } else {
        starts_in(pages, (n - 1) as nat, six_parts) + starts_on_page(
            lines(pages[n - 1]),
            lines(pages[n - 1]).len(),
            six_parts,
        )
    }
}

/// The positions that were read, with the one that is being read.
spec fn read_so_far(s: ReadView) -> nat {
    positions_of(s.boq.roots).len() + (if s.current is Some {
        1nat
    } else {
        0nat
    })
}

proof fn lemma_finished_count(s: ReadView, page: usize)
    ensures
        read_so_far(s.finished(page)) == read_so_far(s),
        s.finished(page).current is None,
{
    broadcast use vstd::seq_lib::group_to_multiset_ensures;

    if let Some(position) = s.current {
        let done = completed(Gathered { position, lines: s.lines }, page);
        let fallback = match done.page_from {
            Some(p) => p,
            None => 0,
        };
        lemma_split_len(join(split(done.oz, '.').drop_last(), "."@), '.');
        law_filed_once(s.boq.roots, path_of(done.oz), 0, s.headings, fallback, done);
        let found = positions_of(s.finished(page).boq.roots);
        assert(found.len() == found.to_multiset().len());
        assert(positions_of(s.boq.roots).len() == positions_of(s.boq.roots).to_multiset().len());
    }
}

proof fn lemma_page_count(s: ReadView, all: Seq<Seq<char>>, n: nat, page: usize, six_parts: bool)
    requires
        n <= all.len(),
    ensures
        read_so_far(s.page_lines(all, n, page, six_parts)) == read_so_far(s) + starts_on_page(
            all,
            n,
            six_parts,
        ),
    decreases n,
{
    if n > 0 {
        lemma_page_count(s, all, (n - 1) as nat, page, six_parts);
        let before = s.page_lines(all, (n - 1) as nat, page, six_parts);
        lemma_finished_count(before, page);
        let line = single_spaced(all[n - 1]);
        let kind = line_kind(line, seen_in(line), before.current is Some, six_parts);
        assert((kind == LineKind::Position) == (line_kind(line, seen_in(line), false, six_parts)
            == LineKind::Position));
    }
}

proof fn lemma_pages_count(boq: BoqView, pages: Seq<Seq<char>>, n: nat, six_parts: bool)
    requires
        n <= pages.len(),
        boq.roots.len() == 0,
    ensures
        read_so_far(pages_read(boq, pages, n, six_parts)) == starts_in(pages, n, six_parts),
    decreases n,
{
    if n > 0 {
        lemma_pages_count(boq, pages, (n - 1) as nat, six_parts);
        let before = pages_read(boq, pages, (n - 1) as nat, six_parts);
        let all = lines(pages[n - 1]);
        lemma_metadata_keeps(before.boq, all, all.len());
        let s = ReadView { boq: with_metadata(before.boq, all, all.len()), ..before };
        lemma_page_count(s, all, all.len(), n as usize, six_parts);
    }
}

/// A bill has as many positions as its text has lines in which a position starts.
pub proof fn law_each_start_one_position(source: Seq<char>, text: Seq<char>)
    requires
        bill_of_text(source, text) is Ok,
    ensures
        positions_of(bill_of_text(source, text)->Ok_0.roots).len() == starts_in(
            split(text, '\u{c}'),
            split(text, '\u{c}').len(),
            is_matched(SIX_PART_PROFILE@, text),
        ),
{
    let six_parts = is_matched(SIX_PART_PROFILE@, text);
    let pages = split(text, '\u{c}');
    let empty = empty_boq(source);
    lemma_pages_count(empty, pages, pages.len(), six_parts);
    let read = pages_read(empty, pages, pages.len(), six_parts);
    lemma_finished_count(read, last_page(pages, pages.len()));
    let done = read.finished(last_page(pages, pages.len()));
    lemma_titles_keep(done.boq.roots, done.headings);
}

/// The client, the bidder and the project of a bill are what stands behind the first line
/// with their label that has something behind it.
pub proof fn law_labelled_lines(boq: BoqView, all: Seq<Seq<char>>, n: nat)
    requires
        0 < n <= all.len(),
    ensures
        ({
            let before = with_metadata(boq, all, (n - 1) as nat);
            let after = with_metadata(boq, all, n);
            let line = single_spaced(all[n - 1]);
            &&& after.client == (if before.client.len() == 0 && "Auftraggeber "@.is_prefix_of(line) {
                trim(line.skip("Auftraggeber "@.len() as int))
            } else {
                before.client
            })
            &&& after.bidder == (if before.bidder.len() == 0 && "Bieter "@.is_prefix_of(line) {
                trim(line.skip("Bieter "@.len() as int))
            } else {
                before.bidder
            })
            &&& after.project == (if before.project.len() == 0 && "Projekt "@.is_prefix_of(line) {
                trim(line.skip("Projekt "@.len() as int))
            } else {
                before.project
            })
            &&& after.source == before.source && after.currency == before.currency
        }),
{
}

} // verus!
