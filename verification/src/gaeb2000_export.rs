//! Writing of GAEB DA 2000 offers (P84).

use crate::clock::{Moment, MomentView};
use crate::decimal::{Dec, Decimal};
use crate::document::{
    failure, row_views, DocumentView, Error, GaebDocument, GaebRow, ItemView, RowView,
};
use crate::gaeb90_export::{
    all_priced, bytes_outcome, fully_priced, item_views, items, items_of, nats, or_else, text_or,
};
use crate::text::{
    chars, digits, join, joined, number, parts, repeated, replace, replaced, split, texts,
};
use vstd::prelude::*;
use vstd::utf8::encode_utf8;

verus! {

/// The name that written files carry as the program that made them.
pub const CONVERTER_NAME: &'static str = "GAEB.hawkvision.de";

/// The byte of Windows-1252 that stands for a character.
pub open spec fn windows_1252_byte(c: char) -> u8 {
    if c == '\u{20AC}' {
        0x80
    } else if c == '\u{201A}' {
        0x82
    } else if c == '\u{0192}' {
        0x83
    } else if c == '\u{201E}' {
        0x84
    } else if c == '\u{2026}' {
        0x85
    } else if c == '\u{2020}' {
        0x86
    } else if c == '\u{2021}' {
        0x87
    } else if c == '\u{02C6}' {
        0x88
    } else if c == '\u{2030}' {
        0x89
    } else if c == '\u{0160}' {
        0x8a
    } else if c == '\u{2039}' {
        0x8b
    } else if c == '\u{0152}' {
        0x8c
    } else if c == '\u{017D}' {
        0x8e
    } else if c == '\u{2018}' {
        0x91
    } else if c == '\u{2019}' {
        0x92
    } else if c == '\u{201C}' {
        0x93
    } else if c == '\u{201D}' {
        0x94
    } else if c == '\u{2022}' {
        0x95
    } else if c == '\u{2013}' {
        0x96
    } else if c == '\u{2014}' {
        0x97
    } else if c == '\u{02DC}' {
        0x98
    } else if c == '\u{2122}' {
        0x99
    } else if c == '\u{0161}' {
        0x9a
    } else if c == '\u{203A}' {
        0x9b
    } else if c == '\u{0153}' {
        0x9c
    } else if c == '\u{017E}' {
        0x9e
    } else if c == '\u{0178}' {
        0x9f
    } else if c <= '\u{ff}' {
        c as u8
    } else {
        '?' as u8
    }
}

/// The bytes of Windows-1252 for a text.
pub open spec fn windows_1252_bytes(s: Seq<char>) -> Seq<u8> {
    Seq::new(s.len(), |i: int| windows_1252_byte(s[i]))
}

fn windows_1252(c: char) -> (r: u8)
    ensures
        r == windows_1252_byte(c),
{
    match c {
        '\u{20AC}' => 0x80,
        '\u{201A}' => 0x82,
        '\u{0192}' => 0x83,
        '\u{201E}' => 0x84,
        '\u{2026}' => 0x85,
        '\u{2020}' => 0x86,
        '\u{2021}' => 0x87,
        '\u{02C6}' => 0x88,
        '\u{2030}' => 0x89,
        '\u{0160}' => 0x8a,
        '\u{2039}' => 0x8b,
        '\u{0152}' => 0x8c,
        '\u{017D}' => 0x8e,
        '\u{2018}' => 0x91,
        '\u{2019}' => 0x92,
        '\u{201C}' => 0x93,
        '\u{201D}' => 0x94,
        '\u{2022}' => 0x95,
        '\u{2013}' => 0x96,
        '\u{2014}' => 0x97,
        '\u{02DC}' => 0x98,
        '\u{2122}' => 0x99,
        '\u{0161}' => 0x9a,
        '\u{203A}' => 0x9b,
        '\u{0153}' => 0x9c,
        '\u{017E}' => 0x9e,
        '\u{0178}' => 0x9f,
        _ => if c <= '\u{ff}' {
            c as u8
        } else {
            0x3f
        },
    }
}

pub fn encode_windows_1252(value: &str) -> (r: Vec<u8>)
    ensures
        r@ == windows_1252_bytes(value@),
{
    let v = chars(value);
    let mut r: Vec<u8> = Vec::new();
    let mut i: usize = 0;
    while i < v.len()
        invariant
            v@ == value@,
            i <= v@.len(),
            r@ == windows_1252_bytes(value@).take(i as int),
        decreases v@.len() - i,
    {
        r.push(windows_1252(v[i]));
        assert(windows_1252_bytes(value@).take(i + 1) =~= windows_1252_bytes(value@).take(
            i as int,
        ).push(windows_1252_byte(v@[i as int])));
        i = i + 1;
    }
    assert(windows_1252_bytes(value@).take(i as int) =~= windows_1252_bytes(value@));
    r
}

/// A value with references in the place of the characters that mark tags.
pub open spec fn escaped(s: Seq<char>) -> Seq<char> {
    replace(replace(replace(s, "&"@, "&#38;"@), "["@, "&#91;"@), "]"@, "&#93;"@)
}

pub fn escape(value: &str) -> (r: String)
    ensures
        r@ == escaped(value@),
{
    proof {
        reveal_strlit("&");
        reveal_strlit("[");
        reveal_strlit("]");
    }
    let r = replaced(value, "&", "&#38;");
    let r = replaced(r.as_str(), "[", "&#91;");
    replaced(r.as_str(), "]", "&#93;")
}

/// A line of the file: its content behind blanks.
pub open spec fn indented(indent: nat, value: Seq<char>) -> Seq<char> {
    Seq::new(indent, |i: int| ' ') + value
}

/// A line that holds a tagged value.
pub open spec fn entry(indent: nat, name: Seq<char>, value: Seq<char>) -> Seq<char> {
    indented(indent, "["@ + name + "]"@ + escaped(value) + "[end]"@)
}

/// Lines as one text, each with its line end.
pub open spec fn with_line_ends(lines: Seq<Seq<char>>) -> Seq<char>
    decreases lines.len(),
{
    if lines.len() == 0 {
        seq![]
    } else {
        with_line_ends(lines.drop_last()) + lines.last() + "\r\n"@
    }
}

/// A text under construction and the lines it is made of.
pub struct Lines {
    text: String,
    lines: Ghost<Seq<Seq<char>>>,
}

impl View for Lines {
    type V = Seq<Seq<char>>;

    closed spec fn view(&self) -> Seq<Seq<char>> {
        self.lines@
    }
}

impl Lines {
    #[verifier::type_invariant]
    spec fn in_step(self) -> bool {
        self.text@ == with_line_ends(self.lines@)
    }

    pub fn new() -> (r: Lines)
        ensures
            r@ == Seq::<Seq<char>>::empty(),
    {
        Lines { text: String::new(), lines: Ghost(Seq::empty()) }
    }

    /// The whole text.
    pub fn finish(self) -> (r: String)
        ensures
            r@ == with_line_ends(self@),
    {
        proof {
            use_type_invariant(&self);
        }
        self.text
    }
}

/// Adds a line.
pub fn line(output: Lines, indent: usize, value: &str) -> (r: Lines)
    ensures
        r@ == output@.push(indented(indent as nat, value@)),
{
    proof {
        use_type_invariant(&output);
    }
    let blanks = repeated(' ', indent);
    let ghost before = output.text@;
    let ghost lines = output.lines@.push(indented(indent as nat, value@));
    let mut text = output.text;
    text.append(blanks.as_str());
    text.append(value);
    text.append("\r\n");
    proof {
        assert(lines.drop_last() =~= output.lines@);
        assert(text@ =~= before + indented(indent as nat, value@) + "\r\n"@);
    }
    Lines { text, lines: Ghost(lines) }
}

/// Adds a line that holds a tagged value.
pub fn field(output: Lines, indent: usize, name: &str, value: &str) -> (r: Lines)
    ensures
        r@ == output@.push(entry(indent as nat, name@, value@)),
{
    let value = escape(value);
    let content = "[".to_owned().concat(name).concat("]").concat(value.as_str()).concat("[end]");
    line(output, indent, content.as_str())
}

/// The length, in bytes, of the part of an ordinal number at `index`, if it has one.
pub open spec fn part_length(oz: Seq<char>, index: int) -> Option<nat> {
    let parts = split(oz, '.');
    if 0 <= index < parts.len() {
        Some(encode_utf8(parts[index]).len())
    } else {
        None
    }
}

pub open spec fn row_oz(row: RowView) -> Seq<char> {
    match row {
        RowView::Category { oz, title: _, level: _ } => oz,
        RowView::Item(item) => item.oz,
    }
}

pub open spec fn larger(a: Option<nat>, b: Option<nat>) -> Option<nat> {
    match (a, b) {
        (Some(x), Some(y)) => Some(
            if x < y {
                y
            } else {
                x
            },
        ),
        (Some(x), None) => Some(x),
        (None, y) => y,
    }
}

/// The deepest level among the headings.
pub open spec fn deepest(rows: Seq<RowView>) -> nat
    decreases rows.len(),
{
    if rows.len() == 0 {
        0
    } else {
        let before = deepest(rows.drop_last());
        match rows.last() {
            RowView::Category { oz: _, title: _, level } => if before < level {
                level
            } else {
                before
            },
            RowView::Item(_) => before,
        }
    }
}

/// The longest part at `index` among the ordinal numbers of all rows.
pub open spec fn longest_part(rows: Seq<RowView>, index: int) -> Option<nat>
    decreases rows.len(),
{
    if rows.len() == 0 {
        None
    } else {
        larger(longest_part(rows.drop_last(), index), part_length(row_oz(rows.last()), index))
    }
}

/// The longest last part among the ordinal numbers of the items.
pub open spec fn longest_last(rows: Seq<RowView>) -> Option<nat>
    decreases rows.len(),
{
    if rows.len() == 0 {
        None
    } else {
        match rows.last() {
            RowView::Item(item) => larger(
                longest_last(rows.drop_last()),
                part_length(item.oz, split(item.oz, '.').len() - 1),
            ),
            RowView::Category { .. } => longest_last(rows.drop_last()),
        }
    }
}

pub open spec fn or_one(v: Option<nat>) -> nat {
    match v {
        Some(n) => n,
        None => 1,
    }
}

/// How long the parts of each level are.
pub open spec fn level_lengths(rows: Seq<RowView>) -> Seq<nat> {
    Seq::new(deepest(rows), |i: int| or_one(longest_part(rows, i)))
}

pub open spec fn opt_nat(v: Option<usize>) -> Option<nat> {
    match v {
        Some(n) => Some(n as nat),
        None => None,
    }
}

fn part_len(oz: &str, index: usize) -> (r: Option<usize>)
    ensures
        opt_nat(r) == part_length(oz@, index as int),
{
    let found = parts(oz, '.');
    assert(found@.len() == texts(found@).len());
    if index < found.len() {
        assert(texts(found@)[index as int] == found@[index as int]@);
        Some(found[index].as_str().as_bytes().len())
    } else {
        None
    }
}

fn max_of(a: Option<usize>, b: Option<usize>) -> (r: Option<usize>)
    ensures
        opt_nat(r) == larger(opt_nat(a), opt_nat(b)),
{
    match (a, b) {
        (Some(x), Some(y)) => Some(
            if x < y {
                y
            } else {
                x
            },
        ),
        (Some(x), None) => Some(x),
        (None, y) => y,
    }
}

fn longest(rows: &Vec<GaebRow>, index: usize) -> (r: usize)
    ensures
        r == or_one(longest_part(row_views(rows@), index as int)),
{
    let ghost all = row_views(rows@);
    let mut best: Option<usize> = None;
    let mut i: usize = 0;
    while i < rows.len()
        invariant
            i <= rows@.len(),
            all == row_views(rows@),
            opt_nat(best) == longest_part(all.take(i as int), index as int),
        decreases rows@.len() - i,
    {
        assert(all.take(i + 1).drop_last() =~= all.take(i as int));
        assert(all.take(i + 1).last() == rows@[i as int]@);
        let oz = match &rows[i] {
            GaebRow::Category { oz, title: _, level: _ } => oz.as_str(),
            GaebRow::Item(item) => item.oz.as_str(),
        };
        best = max_of(best, part_len(oz, index));
        i = i + 1;
    }
    assert(all.take(i as int) =~= all);
    match best {
        Some(n) => n,
        None => 1,
    }
}

pub fn hierarchy_lengths(document: &GaebDocument) -> (r: Vec<usize>)
    ensures
        nats(r@) == level_lengths(document@.rows),
{
    let ghost all = document@.rows;
    let mut depth: usize = 0;
    let mut i: usize = 0;
    while i < document.rows.len()
        invariant
            i <= document.rows@.len(),
            all == row_views(document.rows@),
            depth == deepest(all.take(i as int)),
        decreases document.rows@.len() - i,
    {
        assert(all.take(i + 1).drop_last() =~= all.take(i as int));
        assert(all.take(i + 1).last() == document.rows@[i as int]@);
        match &document.rows[i] {
            GaebRow::Category { oz: _, title: _, level } => {
                if depth < *level {
                    depth = *level;
                }
            },
            GaebRow::Item(_) => {},
        }
        i = i + 1;
    }
    assert(all.take(i as int) =~= all);
    let mut r: Vec<usize> = Vec::new();
    let mut index: usize = 0;
    while index < depth
        invariant
            index <= depth,
            depth == deepest(all),
            all == row_views(document.rows@),
            nats(r@) == level_lengths(all).take(index as int),
        decreases depth - index,
    {
        let ghost before = r@;
        let n = longest(&document.rows, index);
        r.push(n);
        assert(nats(r@) =~= nats(before).push(n as nat));
        assert(level_lengths(all).take(index + 1) =~= level_lengths(all).take(index as int).push(
            n as nat,
        ));
        index = index + 1;
    }
    assert(level_lengths(all).take(index as int) =~= level_lengths(all));
    r
}

pub fn position_length(document: &GaebDocument) -> (r: usize)
    ensures
        r == or_one(longest_last(document@.rows)),
{
    let ghost all = document@.rows;
    let mut best: Option<usize> = None;
    let mut i: usize = 0;
    while i < document.rows.len()
        invariant
            i <= document.rows@.len(),
            all == row_views(document.rows@),
            opt_nat(best) == longest_last(all.take(i as int)),
        decreases document.rows@.len() - i,
    {
        assert(all.take(i + 1).drop_last() =~= all.take(i as int));
        assert(all.take(i + 1).last() == document.rows@[i as int]@);
        match &document.rows[i] {
            GaebRow::Item(item) => {
                let n: usize = parts(item.oz.as_str(), '.').len();
                proof {
                    crate::outline::lemma_split_len(item.oz@, '.');
                    assert(n == split(item.oz@, '.').len());
                }
                best = max_of(best, part_len(item.oz.as_str(), n - 1));
            },
            GaebRow::Category { .. } => {},
        }
        i = i + 1;
    }
    assert(all.take(i as int) =~= all);
    match best {
        Some(n) => n,
        None => 1,
    }
}

/// An ordinal number without its dots.
pub open spec fn undotted(oz: Seq<char>) -> Seq<char> {
    join(split(oz, '.'), seq![])
}

pub fn compact_oz(value: &str) -> (r: String)
    ensures
        r@ == undotted(value@),
{
    let found = parts(value, '.');
    proof {
        reveal_strlit("");
    }
    assert(""@ =~= Seq::<char>::empty());
    joined(&found, "")
}

/// A price with a decimal comma.
pub open spec fn price_text(value: Dec, places: nat) -> Seq<char> {
    replace(value.fixed(places), "."@, ","@)
}

pub fn decimal(value: Decimal, scale: usize) -> (r: String)
    requires
        scale <= 2 || (scale <= 28 && value@.whole_digits().len() + 1 + scale <= 32),
    ensures
        r@ == price_text(value@, scale as nat),
{
    proof {
        reveal_strlit(".");
    }
    replaced(value.fixed(scale).as_str(), ".", ",")
}

/// The lines in front of the levels.
pub open spec fn opening_lines(document: DocumentView, moment: MomentView) -> Seq<Seq<char>> {
    let currency = or_else(document.currency, "EUR"@);
    seq![
        indented(0, "#begin[GAEB]"@),
        indented(1, "#begin[GAEBInfo]"@),
        entry(2, "Version"@, "1.2"@),
        entry(2, "VersMon"@, "3"@),
        entry(2, "VersJahr"@, "2002"@),
        entry(2, "Datum"@, moment.long_date()),
        entry(2, "Uhrzeit"@, moment.short_time()),
        entry(2, "ProgSystem"@, CONVERTER_NAME@),
        entry(2, "ProgName"@, CONVERTER_NAME@),
        entry(2, "Zeichensatz"@, "ANSI"@),
        indented(1, "#end[GAEBInfo]"@),
        indented(1, "#begin[Vergabe]"@),
        entry(2, "DP"@, "84"@),
        indented(2, "#begin[VergabeInfo]"@),
        entry(3, "Wae"@, currency),
        entry(3, "WaeBez"@, currency),
        indented(2, "#end[VergabeInfo]"@),
        indented(2, "#begin[AG]"@),
        indented(2, "#end[AG]"@),
        indented(2, "#begin[AN]"@),
        indented(2, "#end[AN]"@),
        indented(2, "#begin[LV]"@),
        indented(3, "#begin[LVInfo]"@),
        entry(4, "Name"@, or_else(document.boq, "Leistungsverzeichnis"@)),
        entry(4, "Bez"@, or_else(document.project, document.boq)),
        entry(4, "Datum"@, moment.long_date()),
        entry(4, "KurzLang"@, "1"@),
    ]
}

/// The lines that tell the length of one level.
pub open spec fn level_lines(kind: Seq<char>, length: nat) -> Seq<Seq<char>> {
    seq![
        indented(4, "#begin[LVGlied]"@),
        entry(5, "Typ"@, kind),
        entry(5, "Laenge"@, digits(length)),
        indented(4, "#end[LVGlied]"@),
    ]
}

/// The lines that tell the lengths of the first `n` levels.
pub open spec fn levels_lines(lengths: Seq<nat>, n: nat) -> Seq<Seq<char>>
    decreases n,
{
    if n == 0 {
        seq![]
    } else {
        levels_lines(lengths, (n - 1) as nat) + level_lines("LVStufe"@, lengths[n - 1])
    }
}

/// The lines that close headings until fewer than `level` are open.
pub open spec fn closing_lines(open: nat, level: nat) -> Seq<Seq<char>>
    decreases open,
{
    if open >= level && open > 0 {
        seq![indented(2 + open, "#end[LVBereich]"@)] + closing_lines((open - 1) as nat, level)
    } else {
        seq![]
    }
}

/// How many headings are open after those that a new one of `level` ends.
pub open spec fn left_open(open: nat, level: nat) -> nat
    decreases open,
{
    if open >= level && open > 0 {
        left_open((open - 1) as nat, level)
    } else {
        open
    }
}

/// The lines of one row while `open` headings are open.
pub open spec fn row_lines(row: RowView, open: nat) -> Seq<Seq<char>> {
    match row {
        RowView::Category { oz, title, level } => {
            let left = left_open(open, level);
            closing_lines(open, level) + seq![
                indented(3 + left, "#begin[LVBereich]"@),
                entry(4 + left, "OZ"@, undotted(oz)),
                entry(4 + left, "Bez"@, title),
            ]
        },
        RowView::Item(item) => item_lines(
            item.oz,
            item.unit_price->0,
            item.total_price->0,
            open,
        ),
    }
}

/// How many headings are open after a row.
pub open spec fn open_after(row: RowView, open: nat) -> nat {
    match row {
        RowView::Category { oz: _, title: _, level } => left_open(open, level) + 1,
        RowView::Item(_) => open,
    }
}

/// How many headings are open after the first `n` rows.
pub open spec fn open_until(rows: Seq<RowView>, n: nat) -> nat
    decreases n,
{
    if n == 0 {
        0
    } else {
        open_after(rows[n - 1], open_until(rows, (n - 1) as nat))
    }
}

/// The lines of the first `n` rows.
pub open spec fn rows_lines(rows: Seq<RowView>, n: nat) -> Seq<Seq<char>>
    decreases n,
{
    if n == 0 {
        seq![]
    } else {
        rows_lines(rows, (n - 1) as nat) + row_lines(
            rows[n - 1],
            open_until(rows, (n - 1) as nat),
        )
    }
}

/// All lines of an offer.
pub open spec fn p84_lines(document: DocumentView, moment: MomentView) -> Seq<Seq<char>> {
    let rows = document.rows;
    let lengths = level_lengths(rows);
    opening_lines(document, moment) + levels_lines(lengths, lengths.len()) + level_lines(
        "Position"@,
        or_one(longest_last(rows)),
    ) + seq![indented(3, "#end[LVInfo]"@)] + rows_lines(rows, rows.len()) + closing_lines(
        open_until(rows, rows.len()),
        1,
    ) + seq![indented(2, "#end[LV]"@), indented(1, "#end[Vergabe]"@), indented(0, "#end[GAEB]"@)]
}

/// The bytes of the offer that a document makes, or why it makes none.
pub open spec fn p84(document: DocumentView, moment: MomentView) -> Result<Seq<u8>, Seq<char>> {
    let items = items_of(document.rows);
    if items.len() == 0 {
        Err("Die GAEB-Datei enthält keine Positionen für eine P84."@)
    } else if !fully_priced(items) {
        Err("P84 benötigt für jede Position einen Einheits- und Gesamtpreis."@)
    } else {
        Ok(windows_1252_bytes(with_line_ends(p84_lines(document, moment))))
    }
}

/// Every unit price is short enough to be written with three decimal places.
pub open spec fn printable_prices(items: Seq<ItemView>) -> bool {
    forall|i: int|
        0 <= i < items.len() ==> ((#[trigger] items[i]).unit_price is Some
            ==> items[i].unit_price->0.whole_digits().len() <= 28)
}

/// Whether no unit price of a fully priced document is too long to be written.
pub fn prices_can_be_written(document: &GaebDocument) -> (r: bool)
    ensures
        r == (fully_priced(items_of(document@.rows)) ==> printable_prices(
            items_of(document@.rows),
        )),
{
    let found = items(&document.rows);
    let ghost all = item_views(found@);
    assert(all.len() == found@.len());
    if !all_priced(&found) {
        return true;
    }
    let mut i: usize = 0;
    while i < found.len()
        invariant
            i <= found@.len(),
            all == item_views(found@),
            all == items_of(document@.rows),
            fully_priced(all),
            forall|j: int|
                0 <= j < i ==> ((#[trigger] all[j]).unit_price is Some
                    ==> all[j].unit_price->0.whole_digits().len() <= 28),
        decreases found@.len() - i,
    {
        assert(all[i as int] == found@[i as int]@);
        if let Some(price) = &found[i].unit_price {
            let whole = chars(price.fixed(0).as_str());
            assert(whole@ == price@.sign() + price@.whole_digits());
            let sign: usize = if price.is_sign_negative() {
                1
            } else {
                0
            };
            if whole.len() - sign > 28 {
                assert(all[i as int].unit_price->0.whole_digits().len() > 28);
                return false;
            }
        }
        i = i + 1;
    }
    true
}

proof fn lemma_items_of(rows: Seq<RowView>, k: int)
    requires
        0 <= k < rows.len(),
        rows[k] is Item,
    ensures
        items_of(rows).contains(rows[k]->Item_0),
    decreases rows.len(),
{
    let front = rows.drop_last();
    if k < rows.len() - 1 {
        lemma_items_of(front, k);
        assert(front[k] == rows[k]);
        let i = choose|i: int| 0 <= i < items_of(front).len() && items_of(front)[i] == rows[k]->Item_0;
        assert(items_of(rows)[i] == rows[k]->Item_0);
    } else {
        assert(items_of(rows).last() == rows[k]->Item_0);
        assert(items_of(rows)[items_of(rows).len() - 1] == rows[k]->Item_0);
    }
}

fn level_block(output: Lines, kind: &str, length: usize) -> (r: Lines)
    ensures
        r@ == output@ + level_lines(kind@, length as nat),
{
    let r = line(output, 4, "#begin[LVGlied]");
    let r = field(r, 5, "Typ", kind);
    let n = number(length as u64);
    let r = field(r, 5, "Laenge", n.as_str());
    let r = line(r, 4, "#end[LVGlied]");
    assert(r@ =~= output@ + level_lines(kind@, length as nat));
    r
}

fn opening(document: &GaebDocument, moment: &Moment) -> (r: Lines)
    ensures
        r@ == opening_lines(document@, moment@),
{
    let currency = text_or(document.currency.as_str(), "EUR");
    let date = moment.long_date();
    let time = moment.short_time();
    let name = text_or(document.boq.as_str(), "Leistungsverzeichnis");
    let title = text_or(document.project.as_str(), document.boq.as_str());
    let r = Lines::new();
    let r = line(r, 0, "#begin[GAEB]");
    let r = line(r, 1, "#begin[GAEBInfo]");
    let r = field(r, 2, "Version", "1.2");
    let r = field(r, 2, "VersMon", "3");
    let r = field(r, 2, "VersJahr", "2002");
    let r = field(r, 2, "Datum", date.as_str());
    let r = field(r, 2, "Uhrzeit", time.as_str());
    let r = field(r, 2, "ProgSystem", CONVERTER_NAME);
    let r = field(r, 2, "ProgName", CONVERTER_NAME);
    let r = field(r, 2, "Zeichensatz", "ANSI");
    let r = line(r, 1, "#end[GAEBInfo]");
    let r = line(r, 1, "#begin[Vergabe]");
    let r = field(r, 2, "DP", "84");
    let r = line(r, 2, "#begin[VergabeInfo]");
    let r = field(r, 3, "Wae", currency.as_str());
    let r = field(r, 3, "WaeBez", currency.as_str());
    let r = line(r, 2, "#end[VergabeInfo]");
    let r = line(r, 2, "#begin[AG]");
    let r = line(r, 2, "#end[AG]");
    let r = line(r, 2, "#begin[AN]");
    let r = line(r, 2, "#end[AN]");
    let r = line(r, 2, "#begin[LV]");
    let r = line(r, 3, "#begin[LVInfo]");
    let r = field(r, 4, "Name", name.as_str());
    let r = field(r, 4, "Bez", title.as_str());
    let r = field(r, 4, "Datum", date.as_str());
    let r = field(r, 4, "KurzLang", "1");
    assert(r@ =~= opening_lines(document@, moment@));
    r
}

fn close_headings(output: Lines, open: usize, level: usize) -> (r: (Lines, usize))
    requires
        open < usize::MAX - 2,
    ensures
        r.0@ == output@ + closing_lines(open as nat, level as nat),
        r.1 == left_open(open as nat, level as nat),
        r.1 <= open,
    decreases open,
{
    if open >= level && open > 0 {
        let r = line(output, 2 + open, "#end[LVBereich]");
        let ghost here = r@;
        let r = close_headings(r, open - 1, level);
        assert(r.0@ =~= output@ + closing_lines(open as nat, level as nat));
        r
    } else {
        assert(output@ + closing_lines(open as nat, level as nat) =~= output@);
        (output, open)
    }
}

fn write_heading(output: Lines, open: usize, oz: &str, title: &str, level: usize) -> (r: (Lines, usize))
    requires
        open < usize::MAX - 4,
    ensures
        ({
            let row = RowView::Category { oz: oz@, title: title@, level: level as nat };
            r.0@ == output@ + row_lines(row, open as nat) && r.1 == open_after(row, open as nat)
        }),
        r.1 <= open + 1,
{
    let (r, left) = close_headings(output, open, level);
    let r = line(r, 3 + left, "#begin[LVBereich]");
    let r = field(r, 4 + left, "OZ", compact_oz(oz).as_str());
    let r = field(r, 4 + left, "Bez", title);
    assert(r@ =~= output@ + row_lines(
        RowView::Category { oz: oz@, title: title@, level: level as nat },
        open as nat,
    ));
    (r, left + 1)
}

/// The lines of an item with these prices.
pub open spec fn item_lines(oz: Seq<char>, ep: Dec, gb: Dec, open: nat) -> Seq<Seq<char>> {
    seq![
        indented(3 + open, "#begin[Position]"@),
        entry(4 + open, "OZ"@, undotted(oz)),
        entry(4 + open, "EP"@, price_text(ep, 3)),
        entry(4 + open, "GB"@, price_text(gb, 2)),
        indented(3 + open, "#end[Position]"@),
    ]
}

fn write_prices(output: Lines, open: usize, oz: &str, ep: Decimal, gb: Decimal) -> (r: Lines)
    requires
        open < usize::MAX - 4,
        ep@.whole_digits().len() <= 28,
    ensures
        r@ == output@ + item_lines(oz@, ep@, gb@, open as nat),
{
    let r = line(output, 3 + open, "#begin[Position]");
    let r = field(r, 4 + open, "OZ", compact_oz(oz).as_str());
    let r = field(r, 4 + open, "EP", decimal(ep, 3).as_str());
    let r = field(r, 4 + open, "GB", decimal(gb, 2).as_str());
    let r = line(r, 3 + open, "#end[Position]");
    assert(r@ =~= output@ + item_lines(oz@, ep@, gb@, open as nat));
    r
}

/// Writes an offer in GAEB DA 2000 with the ordinal number and the prices of every
/// item. Texts, quantities and units stay in the file that asked for the offer.
pub fn write_p84(document: &GaebDocument, moment: &Moment) -> (r: Result<Vec<u8>, Error>)
    requires
        fully_priced(items_of(document@.rows)) ==> printable_prices(items_of(document@.rows)),
        document.rows@.len() < usize::MAX - 4,
    ensures
        bytes_outcome(r) == p84(document@, moment@),
{
    let found = items(&document.rows);
    let ghost all = item_views(found@);
    assert(all.len() == found@.len());
    if found.len() == 0 {
        return Err(failure("Die GAEB-Datei enthält keine Positionen für eine P84."));
    }
    if !all_priced(&found) {
        return Err(failure("P84 benötigt für jede Position einen Einheits- und Gesamtpreis."));
    }
    let ghost rows = document@.rows;
    let lengths = hierarchy_lengths(document);
    let ghost ls = nats(lengths@);
    assert(ls.len() == lengths@.len());
    let mut output = opening(document, moment);
    let ghost start = output@;
    let mut i: usize = 0;
    assert(start + levels_lines(ls, 0) =~= start);
    while i < lengths.len()
        invariant
            i <= lengths@.len(),
            ls == nats(lengths@),
            output@ == start + levels_lines(ls, i as nat),
        decreases lengths@.len() - i,
    {
        output = level_block(output, "LVStufe", lengths[i]);
        i = i + 1;
        assert(output@ =~= start + levels_lines(ls, i as nat));
    }
    let n = position_length(document);
    output = level_block(output, "Position", n);
    output = line(output, 3, "#end[LVInfo]");
    let ghost head = start + levels_lines(ls, ls.len()) + level_lines("Position"@, n as nat) + seq![
        indented(3, "#end[LVInfo]"@),
    ];
    assert(output@ =~= head);
    let mut open: usize = 0;
    let mut i: usize = 0;
    assert(head + rows_lines(rows, 0) =~= head);
    while i < document.rows.len()
        invariant
            i <= document.rows@.len(),
            document.rows@.len() < usize::MAX - 4,
            rows == row_views(document.rows@),
            all == items_of(rows),
            fully_priced(all),
            printable_prices(all),
            open <= i,
            open == open_until(rows, i as nat),
            output@ == head + rows_lines(rows, i as nat),
        decreases document.rows@.len() - i,
    {
        let ghost here = output@;
        let ghost before_open = open as nat;
        assert(rows[i as int] == document.rows@[i as int]@);
        match &document.rows[i] {
            GaebRow::Category { oz, title, level } => {
                let (r, now_open) = write_heading(
                    output,
                    open,
                    oz.as_str(),
                    title.as_str(),
                    *level,
                );
                output = r;
                open = now_open;
            },
            GaebRow::Item(item) => {
                proof {
                    lemma_items_of(rows, i as int);
                    let k = choose|k: int| 0 <= k < all.len() && all[k] == rows[i as int]->Item_0;
                    assert(all[k].unit_price is Some && all[k].total_price is Some);
                }
                let (ep, gb) = match (item.unit_price, item.total_price) {
                    (Some(ep), Some(gb)) => (ep, gb),
                    _ => {
                        return Err(failure(""));
                    },
                };
                output = write_prices(output, open, item.oz.as_str(), ep, gb);
            },
        }
        assert(output@ == here + row_lines(rows[i as int], before_open));
        i = i + 1;
        assert(output@ =~= head + rows_lines(rows, i as nat));
    }
    let (output, _) = close_headings(output, open, 1);
    let output = line(output, 2, "#end[LV]");
    let output = line(output, 1, "#end[Vergabe]");
    let output = line(output, 0, "#end[GAEB]");
    assert(output@ =~= p84_lines(document@, moment@));
    let text = output.finish();
    Ok(encode_windows_1252(text.as_str()))
}

} // verus!
