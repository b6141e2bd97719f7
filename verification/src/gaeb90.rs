//! Reading of GAEB 90, the exchange format of 80-column records in code page 850.

use crate::decimal::{dec, Dec, Decimal};
use crate::document::{
    any_item, empty_document, empty_item, failure, has_item, heading_title, index_view,
    lemma_row_views_push, retitled, set_heading_title, title_at, DocumentView, Error, GaebDocument,
    GaebItem, GaebRow, ItemView, RowView,
};
use crate::text::{
    chars, digits_within, ends_with, join, joined, lemma_texts_push, lines, parse_digits, parts,
    same, slice, split, split_lines, text, texts, trim, trim_end, trimmed, trimmed_end, utf8_text,
};
use vstd::prelude::*;
use vstd::utf8::{decode_utf8, encode_utf8, valid_utf8};

verus! {

/// The upper half of code page 850.
pub const CP850_HIGH: &'static str = "ÇüéâäàåçêëèïîìÄÅÉæÆôöòûùÿÖÜø£Ø×ƒáíóúñÑªº¿®¬½¼¡«»░▒▓│┤ÁÂÀ©╣║╗╝¢¥┐└┴┬├─┼ãÃ╚╔╩╦╠═╬¤ðÐÊËÈıÍÎÏ┘┌█▄¦Ì▀ÓßÔÒõÕµþÞÚÛÙýÝ¯´\u{00AD}±‗¾¶§÷¸°¨·¹³²■\u{00A0}";

/// The character that code page 850 assigns to a byte.
pub open spec fn cp850_char(b: u8) -> char {
    if b < 0x80 {
        b as char
    } else {
        CP850_HIGH@[b - 0x80]
    }
}

/// The text that bytes of code page 850 hold.
pub open spec fn cp850_text(bytes: Seq<u8>) -> Seq<char> {
    Seq::new(bytes.len(), |i: int| cp850_char(bytes[i]))
}

pub fn decode_cp850(bytes: &[u8]) -> (r: String)
    ensures
        r@ == cp850_text(bytes@),
{
    let table = chars(CP850_HIGH);
    proof {
        reveal_strlit(
            "ÇüéâäàåçêëèïîìÄÅÉæÆôöòûùÿÖÜø£Ø×ƒáíóúñÑªº¿®¬½¼¡«»░▒▓│┤ÁÂÀ©╣║╗╝¢¥┐└┴┬├─┼ãÃ╚╔╩╦╠═╬¤ðÐÊËÈıÍÎÏ┘┌█▄¦Ì▀ÓßÔÒõÕµþÞÚÛÙýÝ¯´\u{00AD}±‗¾¶§÷¸°¨·¹³²■\u{00A0}",
        );
    }
    assert(table@.len() == 128);
    let mut r = String::new();
    let mut i: usize = 0;
    while i < bytes.len()
        invariant
            i <= bytes@.len(),
            table@.len() == 128,
            table@ == CP850_HIGH@,
            r@ == cp850_text(bytes@).take(i as int),
        decreases bytes@.len() - i,
    {
        let b: u8 = bytes[i];
        if b < 0x80 {
            r.push(b as char);
        } else {
            r.push(table[(b - 0x80) as usize]);
        }
        assert(cp850_text(bytes@).take(i + 1) =~= cp850_text(bytes@).take(i as int).push(
            cp850_char(b),
        ));
        i = i + 1;
    }
    assert(cp850_text(bytes@).take(i as int) =~= cp850_text(bytes@));
    r
}

/// The columns from `start` to before `end`, as far as the record reaches.
pub open spec fn columns(s: Seq<char>, start: int, end: int) -> Seq<char> {
    if s.len() <= start || end <= start {
        seq![]
    } else if s.len() < end {
        s.skip(start)
    } else {
        s.subrange(start, end)
    }
}

pub fn field(value: &str, start: usize, end: usize) -> (r: String)
    ensures
        r@ == columns(value@, start as int, end as int),
{
    let v = chars(value);
    if v.len() <= start || end <= start {
        String::new()
    } else if v.len() < end {
        let r = slice(&v, start, v.len());
        assert(r@ =~= v@.skip(start as int));
        r
    } else {
        slice(&v, start, end)
    }
}

/// A text with one more line; an empty line is kept, but no second one in a row.
pub open spec fn with_line(target: Seq<char>, value: Seq<char>) -> Seq<char> {
    if value.len() == 0 {
        if target.len() > 0 && !(seq!['\n', '\n']).is_suffix_of(target) {
            target.push('\n')
        } else {
            target
        }
    } else if target.len() > 0 && target.last() != '\n' {
        target.push('\n') + value
    } else {
        target + value
    }
}

pub fn append_line(target: &mut String, value: &str)
    ensures
        final(target)@ == with_line(old(target)@, value@),
{
    proof {
        reveal_strlit("\n\n");
        reveal_strlit("\n");
    }
    assert("\n\n"@ =~= seq!['\n', '\n']);
    if value.is_empty() {
        if !target.as_str().is_empty() && !ends_with(target.as_str(), "\n\n") {
            target.push('\n');
        }
        return;
    }
    if !target.as_str().is_empty() && !ends_with(target.as_str(), "\n") {
        assert("\n"@ =~= seq!['\n']);
        assert(target@.subrange(target@.len() - 1, target@.len() as int) =~= seq![target@.last()]);
        assert(seq![target@.last()][0] != '\n' || seq![target@.last()] =~= seq!['\n']);
        target.push('\n');
    } else if !target.as_str().is_empty() {
        assert("\n"@ =~= seq!['\n']);
        assert(target@.subrange(target@.len() - 1, target@.len() as int)[0] == "\n"@[0]);
    }
    target.append(value);
}

/// A row of digits read with `scale` implied decimal places.
pub open spec fn implied_decimal(value: Seq<char>, scale: nat) -> Option<Dec> {
    match digits_within(trim(value), i64::MAX as nat) {
        Some(n) => Some(Dec { mantissa: n as int, scale }),
        None => None,
    }
}

pub fn parse_implied_decimal(value: &str, scale: u32) -> (r: Option<Decimal>)
    requires
        scale <= 28,
    ensures
        dec(r) == implied_decimal(value@, scale as nat),
{
    let value = trimmed(value);
    match parse_digits(value.as_str(), i64::MAX as u64) {
        Some(n) => Some(Decimal::new(n as i64, scale)),
        None => None,
    }
}

/// How many bytes at the front equal the first one.
pub open spec fn run_len(s: Seq<u8>) -> nat
    decreases s.len(),
{
    if s.len() == 0 {
        0
    } else if s.len() == 1 || s[1] != s[0] {
        1
    } else {
        1 + run_len(s.skip(1))
    }
}

pub proof fn lemma_run_len(s: Seq<u8>, n: int)
    requires
        0 < n <= s.len(),
        forall|i: int| 0 <= i < n ==> #[trigger] s[i] == s[0],
        n < s.len() ==> s[n] != s[0],
    ensures
        run_len(s) == n,
    decreases s.len(),
{
    if n > 1 {
        assert(s[1] == s[0]);
        assert forall|i: int| 0 <= i < n - 1 implies #[trigger] s.skip(1)[i] == s.skip(1)[0] by {
            assert(s.skip(1)[i] == s[i + 1]);
        }
        lemma_run_len(s.skip(1), n - 1);
    }
}

pub proof fn lemma_run_len_bound(s: Seq<u8>)
    ensures
        run_len(s) <= s.len(),
        s.len() > 0 ==> run_len(s) > 0,
    decreases s.len(),
{
    if s.len() > 1 {
        lemma_run_len_bound(s.skip(1));
    }
}

/// The text of bytes, or none where they are no valid UTF-8.
pub open spec fn lossless(bytes: Seq<u8>) -> Seq<char> {
    if valid_utf8(bytes) {
        decode_utf8(bytes)
    } else {
        seq![]
    }
}

/// The parts of an ordinal number. Each run of one marker in the mask covers one
/// part; the markers `0`, `I` and blank cover none.
pub open spec fn oz_parts(raw: Seq<u8>, mask: Seq<u8>) -> Seq<Seq<char>>
    recommends
        raw.len() == mask.len(),
    decreases mask.len(),
    via oz_parts_decreases
{
    if raw.len() == 0 || mask.len() == 0 {
        seq![]
    } else {
        let n = run_len(mask) as int;
        let part = trim(lossless(raw.take(n)));
        let rest = oz_parts(raw.skip(n), mask.skip(n));
        if mask[0] == 0x30 || mask[0] == 0x49 || mask[0] == 0x20 || part.len() == 0 {
            rest
        } else {
            seq![part] + rest
        }
    }
}

#[via_fn]
proof fn oz_parts_decreases(raw: Seq<u8>, mask: Seq<u8>) {
    lemma_run_len_bound(mask);
}

/// The shorter of two lengths.
pub open spec fn shorter(a: nat, b: nat) -> int {
    if a < b {
        a as int
    } else {
        b as int
    }
}

/// The ordinal number of a record, its parts set apart by dots as the mask says.
pub open spec fn masked_oz(raw: Seq<char>, mask: Seq<char>) -> Seq<char> {
    let n = shorter(encode_utf8(raw).len(), encode_utf8(mask).len());
    join(oz_parts(encode_utf8(raw).take(n), encode_utf8(mask).take(n)), "."@)
}

pub fn format_oz(raw: &str, mask: &str) -> (r: String)
    ensures
        r@ == masked_oz(raw@, mask@),
{
    broadcast use lemma_texts_push;
    let raw = raw.as_bytes();
    let mask = mask.as_bytes();
    let n: usize = if raw.len() < mask.len() {
        raw.len()
    } else {
        mask.len()
    };
    let ghost raws = raw@.take(n as int);
    let ghost masks = mask@.take(n as int);
    let mut found: Vec<String> = Vec::new();
    let mut index: usize = 0;
    assert(raws.skip(0) =~= raws);
    assert(masks.skip(0) =~= masks);
    assert(texts(found@) + oz_parts(raws, masks) =~= oz_parts(raws, masks));
    while index < n
        invariant
            index <= n <= raw@.len(),
            n <= mask@.len(),
            raws == raw@.take(n as int),
            masks == mask@.take(n as int),
            texts(found@) + oz_parts(raws.skip(index as int), masks.skip(index as int)) == oz_parts(
                raws,
                masks,
            ),
        decreases n - index,
    {
        broadcast use lemma_texts_push;
        let marker: u8 = mask[index];
        let mut end: usize = index + 1;
        while end < n && mask[end] == marker
            invariant
                index < end <= n <= mask@.len(),
                forall|j: int| index <= j < end ==> mask@[j] == marker,
            decreases n - end,
        {
            end = end + 1;
        }
        let ghost rest_raw = raws.skip(index as int);
        let ghost rest_mask = masks.skip(index as int);
        let ghost before = texts(found@);
        proof {
            lemma_run_len(rest_mask, end - index);
            assert(rest_raw.skip(end - index) =~= raws.skip(end as int));
            assert(rest_mask.skip(end - index) =~= masks.skip(end as int));
            assert(rest_raw.take(end - index) =~= raw@.subrange(index as int, end as int));
        }
        if marker != 0x30 && marker != 0x49 && marker != 0x20 {
            let piece = match utf8_text(vstd::slice::slice_subrange(raw, index, end)) {
                Some(s) => s,
                None => String::new(),
            };
            let part = trimmed(piece.as_str());
            if !part.as_str().is_empty() {
                found.push(part);
                assert(texts(found@) + oz_parts(raws.skip(end as int), masks.skip(end as int))
                    =~= before + oz_parts(rest_raw, rest_mask));
            }
        }
        index = end;
    }
    assert(raws.skip(index as int) =~= Seq::<u8>::empty());
    assert(texts(found@) + oz_parts(raws.skip(index as int), masks.skip(index as int)) =~= texts(
        found@,
    ));
    joined(&found, ".")
}

/// How far a file has been read: the rows so far, the heading that a title line
/// belongs to, and the item that is still open.
#[verifier::ext_equal]
pub struct ReadingView {
    pub document: DocumentView,
    pub category: Option<nat>,
    pub item: Option<ItemView>,
}

/// The rows with the open item closed: its texts lose the white space at their ends.
pub open spec fn closed_rows(rows: Seq<RowView>, item: Option<ItemView>) -> Seq<RowView> {
    match item {
        Some(value) => rows.push(
            RowView::Item(
                ItemView {
                    short_text: trim(value.short_text),
                    long_text: trim(value.long_text),
                    ..value
                },
            ),
        ),
        None => rows,
    }
}

impl ReadingView {
    /// The state after the open item and the open heading are closed.
    pub open spec fn closed(self) -> ReadingView {
        ReadingView {
            document: DocumentView {
                rows: closed_rows(self.document.rows, self.item),
                ..self.document
            },
            category: None,
            item: None,
        }
    }

    /// What one record, known by its first two columns, does to the state.
    #[verifier::opaque]
    pub open spec fn record(self, record: Seq<char>, phase: Seq<char>, mask: Seq<char>) -> ReadingView {
        let kind = columns(record, 0, 2);
        if kind == "01"@ {
            ReadingView {
                document: DocumentView { project: trim(columns(record, 2, 42)), ..self.document },
                ..self
            }
        } else if kind == "02"@ {
            ReadingView {
                document: DocumentView { boq: trim(columns(record, 2, 72)), ..self.document },
                ..self
            }
        } else if kind == "08"@ {
            let currency = trim(columns(record, 2, 5));
            if currency.len() > 0 {
                ReadingView { document: DocumentView { currency, ..self.document }, ..self }
            } else {
                self
            }
        } else if kind == "11"@ {
            let oz = masked_oz(columns(record, 2, 11), mask);
            let done = self.closed();
            if oz.len() == 0 {
                done
            } else {
                ReadingView {
                    document: DocumentView {
                        rows: done.document.rows.push(
                            RowView::Category { oz, title: seq![], level: split(oz, '.').len() },
                        ),
                        ..done.document
                    },
                    category: Some(done.document.rows.len()),
                    item: None,
                }
            }
        } else if kind == "12"@ {
            match title_at(self.document.rows, self.category) {
                Some(title) => ReadingView {
                    document: DocumentView {
                        rows: retitled(
                            self.document.rows,
                            self.category->0 as int,
                            with_line(title, trim(columns(record, 2, 72))),
                        ),
                        ..self.document
                    },
                    ..self
                },
                None => self,
            }
        } else if kind == "21"@ {
            ReadingView {
                item: Some(
                    ItemView {
                        oz: masked_oz(columns(record, 2, 11), mask),
                        quantity: implied_decimal(columns(record, 23, 34), 3),
                        unit: trim(columns(record, 34, 38)),
                        ..empty_item()
                    },
                ),
                ..self.closed()
            }
        } else if kind == "23"@ && phase == "84"@ {
            ReadingView {
                item: Some(
                    ItemView {
                        oz: masked_oz(columns(record, 2, 11), mask),
                        unit_price: implied_decimal(columns(record, 13, 24), 3),
                        total_price: implied_decimal(columns(record, 25, 37), 2),
                        ..empty_item()
                    },
                ),
                ..self.closed()
            }
        } else if kind == "25"@ {
            match self.item {
                Some(item) => ReadingView {
                    item: Some(
                        ItemView {
                            short_text: with_line(item.short_text, trim(columns(record, 2, 72))),
                            ..item
                        },
                    ),
                    ..self
                },
                None => self,
            }
        } else if kind == "26"@ {
            match self.item {
                Some(item) => ReadingView {
                    item: Some(
                        ItemView {
                            long_text: with_line(item.long_text, trim(columns(record, 5, 72))),
                            ..item
                        },
                    ),
                    ..self
                },
                None => self,
            }
        } else if kind == "31"@ || kind == "99"@ {
            self.closed()
        } else {
            self
        }
    }
}

/// The state of a reader that has seen the header alone.
pub open spec fn opened(source: Seq<char>, phase: Seq<char>) -> ReadingView {
    ReadingView { document: empty_document(source, phase), category: None, item: None }
}

/// The state after the header and the records up to before `n`.
pub open spec fn read_until(
    records: Seq<Seq<char>>,
    n: nat,
    source: Seq<char>,
    phase: Seq<char>,
    mask: Seq<char>,
) -> ReadingView
    decreases n,
{
    if n <= 1 {
        opened(source, phase)
    } else {
        read_until(records, (n - 1) as nat, source, phase, mask).record(records[n - 1], phase, mask)
    }
}

/// The records of a text: its lines without the blanks at their ends.
pub open spec fn records_of(text: Seq<char>) -> Seq<Seq<char>> {
    Seq::new(lines(text).len(), |i: int| trim_end(lines(text)[i]))
}

/// What a GAEB 90 text says, or why it cannot be read.
pub open spec fn gaeb_90(source: Seq<char>, text: Seq<char>) -> Result<DocumentView, Seq<char>> {
    let records = records_of(text);
    let header = records[0];
    let phase = trim(columns(header, 10, 12));
    let mask = columns(header, 62, 71);
    let read = read_until(records, records.len(), source, phase, mask).closed().document;
    if records.len() == 0 {
        Err("GAEB-90-Datei ist leer."@)
    } else if columns(header, 0, 2) != "00"@ || header.len() < 73 {
        Err("Kein gültiger GAEB-90-Kopfsatz gefunden."@)
    } else if phase != "81"@ && phase != "83"@ && phase != "84"@ {
        Err("GAEB-90-Phase D"@ + phase + " wird noch nicht unterstützt."@)
    } else if trim(mask).len() == 0 {
        Err("GAEB-90-Datei enthält keine OZ-Maske."@)
    } else if !has_item(read.rows) {
        Err("GAEB-90-Datei enthält keine D"@ + phase + "-Positionen."@)
    } else {
        Ok(read)
    }
}

/// A result as what it says.
pub open spec fn outcome(r: Result<GaebDocument, Error>) -> Result<DocumentView, Seq<char>> {
    match r {
        Ok(document) => Ok(document@),
        Err(error) => Err(error@),
    }
}

struct Reading {
    document: GaebDocument,
    category: Option<usize>,
    item: Option<GaebItem>,
}

spec fn item_view(v: Option<GaebItem>) -> Option<ItemView> {
    match v {
        Some(item) => Some(item@),
        None => None,
    }
}

impl Reading {
    spec fn state(self) -> ReadingView {
        ReadingView {
            document: self.document@,
            category: index_view(self.category),
            item: item_view(self.item),
        }
    }

    /// Closes the open item and the open heading.
    fn close(&mut self)
        ensures
            final(self).state() == old(self).state().closed(),
    {
        broadcast use lemma_row_views_push;
        let ghost before = self.state();
        let item = self.item.take();
        if let Some(item) = item {
            let short_text = trimmed(item.short_text.as_str());
            let long_text = trimmed(item.long_text.as_str());
            self.document.rows.push(
                GaebRow::Item(
                    GaebItem {
                        oz: item.oz,
                        short_text,
                        long_text,
                        quantity: item.quantity,
                        unit: item.unit,
                        unit_price: item.unit_price,
                        total_price: item.total_price,
                    },
                ),
            );
        }
        self.category = None;
        assert(self.state() =~= before.closed());
    }

    /// Takes in one record.
    fn record(&mut self, record: &str, phase: &str, mask: &str)
        ensures
            final(self).state() == old(self).state().record(record@, phase@, mask@),
    {
        broadcast use lemma_row_views_push;
        let ghost before = self.state();
        let kind = field(record, 0, 2);
        let kind = kind.as_str();
        proof {
            reveal(ReadingView::record);
            reveal_strlit("01");
            reveal_strlit("02");
            reveal_strlit("08");
            reveal_strlit("11");
            reveal_strlit("12");
            reveal_strlit("21");
            reveal_strlit("23");
            reveal_strlit("25");
            reveal_strlit("26");
        }
        if same(kind, "01") {
            self.document.project = trimmed(field(record, 2, 42).as_str());
        } else if same(kind, "02") {
            self.document.boq = trimmed(field(record, 2, 72).as_str());
        } else if same(kind, "08") {
            let currency = trimmed(field(record, 2, 5).as_str());
            if !currency.as_str().is_empty() {
                self.document.currency = currency;
            }
        } else if same(kind, "11") {
            self.close();
            let oz = format_oz(field(record, 2, 11).as_str(), mask);
            if !oz.as_str().is_empty() {
                let level: usize = parts(oz.as_str(), '.').len();
                let at: usize = self.document.rows.len();
                assert(level == split(oz@, '.').len());
                self.document.rows.push(GaebRow::Category { oz, title: String::new(), level });
                self.category = Some(at);
            }
            assert(self.state() =~= before.record(record@, phase@, mask@));
        } else if same(kind, "12") {
            let value = trimmed(field(record, 2, 72).as_str());
            let title = heading_title(&self.document.rows, self.category);
            if let (Some(mut title), Some(index)) = (title, self.category) {
                append_line(&mut title, value.as_str());
                set_heading_title(&mut self.document.rows, index, title);
            }
            assert(self.state() =~= before.record(record@, phase@, mask@));
        } else if same(kind, "21") {
            self.close();
            let mut item = GaebItem::default();
            item.oz = format_oz(field(record, 2, 11).as_str(), mask);
            item.quantity = parse_implied_decimal(field(record, 23, 34).as_str(), 3);
            item.unit = trimmed(field(record, 34, 38).as_str());
            self.item = Some(item);
        } else if same(kind, "23") && same(phase, "84") {
            self.close();
            let mut item = GaebItem::default();
            item.oz = format_oz(field(record, 2, 11).as_str(), mask);
            item.unit_price = parse_implied_decimal(field(record, 13, 24).as_str(), 3);
            item.total_price = parse_implied_decimal(field(record, 25, 37).as_str(), 2);
            self.item = Some(item);
        } else if same(kind, "25") {
            let value = trimmed(field(record, 2, 72).as_str());
            let item = self.item.take();
            if let Some(mut item) = item {
                append_line(&mut item.short_text, value.as_str());
                self.item = Some(item);
            }
        } else if same(kind, "26") {
            let value = trimmed(field(record, 5, 72).as_str());
            let item = self.item.take();
            if let Some(mut item) = item {
                append_line(&mut item.long_text, value.as_str());
                self.item = Some(item);
            }
        } else if same(kind, "31") || same(kind, "99") {
            self.close();
        }
        assert(self.state() =~= before.record(record@, phase@, mask@));
    }
}

pub fn parse_gaeb_90(source: &str, text: &str) -> (r: Result<GaebDocument, Error>)
    ensures
        outcome(r) == gaeb_90(source@, text@),
{
    broadcast use lemma_texts_push;
    let found = split_lines(text);
    let mut records: Vec<String> = Vec::new();
    let mut i: usize = 0;
    while i < found.len()
        invariant
            i <= found@.len(),
            texts(found@) == lines(text@),
            texts(records@) == records_of(text@).take(i as int),
        decreases found@.len() - i,
    {
        broadcast use lemma_texts_push;
        assert(texts(found@)[i as int] == found@[i as int]@);
        records.push(trimmed_end(found[i].as_str()));
        assert(records_of(text@).take(i + 1) =~= records_of(text@).take(i as int).push(
            trim_end(lines(text@)[i as int]),
        ));
        i = i + 1;
    }
    assert(found@.len() == texts(found@).len());
    assert(records_of(text@).take(i as int) =~= records_of(text@));
    let ghost all = records_of(text@);
    assert(records@.len() == texts(records@).len());
    if records.len() == 0 {
        return Err(failure("GAEB-90-Datei ist leer."));
    }
    assert(all[0] == records@[0]@);
    let header = records[0].as_str();
    let kind = field(header, 0, 2);
    if !same(kind.as_str(), "00") || header.unicode_len() < 73 {
        return Err(failure("Kein gültiger GAEB-90-Kopfsatz gefunden."));
    }
    let phase = trimmed(field(header, 10, 12).as_str());
    let phase = phase.as_str();
    if !same(phase, "81") && !same(phase, "83") && !same(phase, "84") {
        let message = "GAEB-90-Phase D".to_owned().concat(phase).concat(
            " wird noch nicht unterstützt.",
        );
        return Err(Error { message });
    }
    let mask = field(header, 62, 71);
    if trimmed(mask.as_str()).as_str().is_empty() {
        return Err(failure("GAEB-90-Datei enthält keine OZ-Maske."));
    }
    let mut reading = Reading {
        document: GaebDocument::new(source, phase),
        category: None,
        item: None,
    };
    let mut i: usize = 1;
    assert(reading.state() =~= opened(source@, phase@));
    while i < records.len()
        invariant
            1 <= i <= records@.len(),
            all == texts(records@),
            reading.state() == read_until(all, i as nat, source@, phase@, mask@),
        decreases records@.len() - i,
    {
        assert(all[i as int] == records@[i as int]@);
        reading.record(records[i].as_str(), phase, mask.as_str());
        i = i + 1;
    }
    reading.close();
    if !any_item(&reading.document.rows) {
        let message = "GAEB-90-Datei enthält keine D".to_owned().concat(phase).concat(
            "-Positionen.",
        );
        return Err(Error { message });
    }
    Ok(reading.document)
}

/// Reads a GAEB 90 file of the phases D81, D83 and D84, given its bytes.
pub fn read_gaeb_90(source: &str, bytes: &[u8]) -> (r: Result<GaebDocument, Error>)
    ensures
        outcome(r) == gaeb_90(source@, cp850_text(bytes@)),
{
    let text = decode_cp850(bytes);
    parse_gaeb_90(source, text.as_str())
}

} // verus!
