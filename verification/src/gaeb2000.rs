//! Reading of GAEB DA 2000, the exchange format of tagged lines in Windows-1252.

use crate::decimal::{dec, read_number, Dec, Decimal};
use crate::document::{
    any_item, empty_document, empty_item, failure, has_item, heading_title, index_view,
    lemma_row_views_push, retitled, set_heading_title, title_at, DocumentView, Error, GaebDocument,
    GaebItem, GaebRow, ItemView, RowView,
};
use crate::gaeb90::{lossless, outcome};
use crate::gaeb90_export::nats;
use crate::text::{
    chars, cut_end, ends_with, has_char, join, joined, lemma_texts_push, lines, listed,
    next_position, parse_size, position_of, replace, replaced, same, size_in, slice, split_lines,
    starts_with, text, texts, trim, trim_start, trimmed, trimmed_start, utf8_text, without_end,
};
use vstd::prelude::*;
use vstd::utf8::encode_utf8;

verus! {

/// The characters of Windows-1252 from 80 to 9F.
pub const WINDOWS_1252_CONTROLS: &'static str = "\u{20AC}\u{0081}\u{201A}\u{0192}\u{201E}\u{2026}\u{2020}\u{2021}\u{02C6}\u{2030}\u{0160}\u{2039}\u{0152}\u{008D}\u{017D}\u{008F}\u{0090}\u{2018}\u{2019}\u{201C}\u{201D}\u{2022}\u{2013}\u{2014}\u{02DC}\u{2122}\u{0161}\u{203A}\u{0153}\u{009D}\u{017E}\u{0178}";

/// The character that Windows-1252 assigns to a byte.
pub open spec fn windows_1252_char(b: u8) -> char {
    if 0x80 <= b <= 0x9f {
        WINDOWS_1252_CONTROLS@[b - 0x80]
    } else {
        b as char
    }
}

/// The text that bytes of Windows-1252 hold.
pub open spec fn windows_1252_text(bytes: Seq<u8>) -> Seq<char> {
    Seq::new(bytes.len(), |i: int| windows_1252_char(bytes[i]))
}

pub fn decode_windows_1252(bytes: &[u8]) -> (r: String)
    ensures
        r@ == windows_1252_text(bytes@),
{
    let table = chars(WINDOWS_1252_CONTROLS);
    proof {
        reveal_strlit(
            "\u{20AC}\u{0081}\u{201A}\u{0192}\u{201E}\u{2026}\u{2020}\u{2021}\u{02C6}\u{2030}\u{0160}\u{2039}\u{0152}\u{008D}\u{017D}\u{008F}\u{0090}\u{2018}\u{2019}\u{201C}\u{201D}\u{2022}\u{2013}\u{2014}\u{02DC}\u{2122}\u{0161}\u{203A}\u{0153}\u{009D}\u{017E}\u{0178}",
        );
    }
    assert(table@.len() == 32);
    let mut r = String::new();
    let mut i: usize = 0;
    while i < bytes.len()
        invariant
            i <= bytes@.len(),
            table@.len() == 32,
            table@ == WINDOWS_1252_CONTROLS@,
            r@ == windows_1252_text(bytes@).take(i as int),
        decreases bytes@.len() - i,
    {
        let b: u8 = bytes[i];
        if b >= 0x80 && b <= 0x9f {
            r.push(table[(b - 0x80) as usize]);
        } else {
            r.push(b as char);
        }
        assert(windows_1252_text(bytes@).take(i + 1) =~= windows_1252_text(bytes@).take(
            i as int,
        ).push(windows_1252_char(b)));
        i = i + 1;
    }
    assert(windows_1252_text(bytes@).take(i as int) =~= windows_1252_text(bytes@));
    r
}

/// A text with one more line.
pub open spec fn with_text_line(target: Seq<char>, value: Seq<char>) -> Seq<char> {
    if target.len() > 0 {
        target.push('\n') + value
    } else {
        target + value
    }
}

pub fn append_multiline(target: &mut String, value: &str)
    ensures
        final(target)@ == with_text_line(old(target)@, value@),
{
    if !target.as_str().is_empty() {
        target.push('\n');
    }
    target.append(value);
}

/// What stands behind a prefix, if the text starts with it.
pub open spec fn behind(s: Seq<char>, prefix: Seq<char>) -> Option<Seq<char>> {
    if prefix.is_prefix_of(s) {
        Some(s.skip(prefix.len() as int))
    } else {
        None
    }
}

/// What stands before a suffix, if the text ends with it.
pub open spec fn before(s: Seq<char>, suffix: Seq<char>) -> Option<Seq<char>> {
    if suffix.is_suffix_of(s) {
        Some(s.take(s.len() - suffix.len()))
    } else {
        None
    }
}

pub open spec fn opt(v: Option<String>) -> Option<Seq<char>> {
    crate::model::opt_text(v)
}

pub fn strip_prefix(s: &str, prefix: &str) -> (r: Option<String>)
    ensures
        opt(r) == behind(s@, prefix@),
{
    if !starts_with(s, prefix) {
        return None;
    }
    let v = chars(s);
    let n: usize = prefix.unicode_len();
    let r = slice(&v, n, v.len());
    assert(r@ =~= s@.skip(prefix@.len() as int));
    Some(r)
}

pub fn strip_suffix(s: &str, suffix: &str) -> (r: Option<String>)
    ensures
        opt(r) == before(s@, suffix@),
{
    if !ends_with(s, suffix) {
        return None;
    }
    let v = chars(s);
    let n: usize = suffix.unicode_len();
    let r = slice(&v, 0, v.len() - n);
    assert(r@ =~= s@.take(s@.len() - suffix@.len()));
    Some(r)
}

/// The name in a line that opens or closes a block.
pub open spec fn block(line: Seq<char>, prefix: Seq<char>) -> Option<Seq<char>> {
    match behind(line, prefix) {
        Some(rest) => before(rest, "]"@),
        None => None,
    }
}

pub fn block_name(line: &str, prefix: &str) -> (r: Option<String>)
    ensures
        opt(r) == block(line@, prefix@),
{
    match strip_prefix(line, prefix) {
        Some(rest) => strip_suffix(rest.as_str(), "]"),
        None => None,
    }
}

/// The tag in square brackets at the front of a line, and what stands behind it.
pub open spec fn tagged(line: Seq<char>) -> Option<(Seq<char>, Seq<char>)> {
    match behind(line, "["@) {
        Some(rest) => {
            let end = position_of(rest, ']') as int;
            if end < rest.len() {
                Some((rest.take(end), rest.skip(end + 1)))
            } else {
                None
            }
        },
        None => None,
    }
}

pub open spec fn pair_view(v: Option<(String, String)>) -> Option<(Seq<char>, Seq<char>)> {
    match v {
        Some((a, b)) => Some((a@, b@)),
        None => None,
    }
}

pub fn field_start(line: &str) -> (r: Option<(String, String)>)
    ensures
        pair_view(r) == tagged(line@),
{
    match strip_prefix(line, "[") {
        Some(rest) => {
            let v = chars(rest.as_str());
            assert(v@.skip(0) =~= v@);
            let end = next_position(&v, ']', 0);
            if end < v.len() {
                let tag = slice(&v, 0, end);
                let value = slice(&v, end + 1, v.len());
                assert(tag@ =~= rest@.take(end as int));
                assert(value@ =~= rest@.skip(end + 1));
                Some((tag, value))
            } else {
                None
            }
        },
        None => None,
    }
}

/// The text of the bytes from `from` to before `to`, or none where they are out of
/// range or would cut a character.
pub open spec fn byte_slice(s: Seq<char>, from: int, to: int) -> Seq<char> {
    let bytes = encode_utf8(s);
    if from <= to <= bytes.len() {
        lossless(bytes.subrange(from, to))
    } else {
        seq![]
    }
}

pub fn bytes_between(s: &str, from: usize, to: usize) -> (r: String)
    ensures
        r@ == byte_slice(s@, from as int, to as int),
{
    let bytes = s.as_bytes();
    if from <= to && to <= bytes.len() {
        match utf8_text(vstd::slice::slice_subrange(bytes, from, to)) {
            Some(t) => t,
            None => String::new(),
        }
    } else {
        String::new()
    }
}

/// The parts of an ordinal number written without dots, from the byte `offset` and
/// the level `k` on: one for each level, and one for what is left.
pub open spec fn compact_parts(s: Seq<char>, lengths: Seq<nat>, k: nat, offset: nat) -> Seq<Seq<char>>
    decreases lengths.len() - k,
{
    let end = encode_utf8(s).len();
    if k >= lengths.len() {
        let rest = trim(byte_slice(s, offset as int, end as int));
        if offset < end && rest.len() > 0 {
            seq![rest]
        } else {
            seq![]
        }
    } else {
        let next = offset + lengths[k as int];
        let part = trim(byte_slice(s, offset as int, next as int));
        let tail = if next >= end {
            seq![]
        } else {
            compact_parts(s, lengths, k + 1, next)
        };
        if part.len() > 0 {
            seq![part] + tail
        } else {
            tail
        }
    }
}

/// An ordinal number written without dots, its parts set apart by the lengths of the
/// levels.
pub open spec fn dotted(s: Seq<char>, lengths: Seq<nat>) -> Seq<char> {
    let parts = compact_parts(s, lengths, 0, 0);
    if parts.len() == 0 {
        s
    } else {
        join(parts, "."@)
    }
}

pub fn format_compact_oz(raw: &str, lengths: &[usize]) -> (r: String)
    ensures
        r@ == dotted(raw@, nats(lengths@)),
{
    broadcast use lemma_texts_push;
    let ghost ls = nats(lengths@);
    let end: usize = raw.as_bytes().len();
    let mut found: Vec<String> = Vec::new();
    let mut offset: usize = 0;
    let mut i: usize = 0;
    let ghost all = compact_parts(raw@, ls, 0, 0);
    assert(texts(found@) + all =~= all);
    while i < lengths.len() && (i == 0 || offset < end)
        invariant
            i <= lengths@.len(),
            ls == nats(lengths@),
            end == encode_utf8(raw@).len(),
            i > 0 && offset >= end ==> texts(found@) == all,
            i == 0 || offset < end ==> texts(found@) + compact_parts(
                raw@,
                ls,
                i as nat,
                offset as nat,
            ) == all,
        decreases lengths@.len() - i,
    {
        broadcast use lemma_texts_push;
        let len: usize = lengths[i];
        let ghost tail = compact_parts(raw@, ls, i as nat, offset as nat);
        let ghost before_texts = texts(found@);
        let ghost exact = offset + len;
        let next: usize = if len <= usize::MAX - offset {
            offset + len
        } else {
            usize::MAX
        };
        let part = if len <= usize::MAX - offset {
            trimmed(bytes_between(raw, offset, next).as_str())
        } else {
            String::new()
        };
        assert(part@ == trim(byte_slice(raw@, offset as int, exact))) by {
            if len > usize::MAX - offset {
                assert(trim(Seq::<char>::empty()) =~= Seq::<char>::empty());
            }
        }
        if !part.as_str().is_empty() {
            found.push(part);
        }
        i = i + 1;
        offset = next;
        proof {
            let rest = if exact >= end {
                seq![]
            } else {
                compact_parts(raw@, ls, i as nat, exact as nat)
            };
            assert(texts(found@) + rest =~= before_texts + tail);
            if offset >= end {
                assert(texts(found@) + rest =~= texts(found@));
            }
        }
    }
    if offset < end {
        let rest = trimmed(bytes_between(raw, offset, end).as_str());
        if !rest.as_str().is_empty() {
            found.push(rest);
        }
        assert(texts(found@) =~= all);
    } else if i == 0 {
        assert(texts(found@) =~= all);
    }
    assert(found@.len() == texts(found@).len());
    if found.len() == 0 {
        raw.to_owned()
    } else {
        joined(&found, ".")
    }
}

/// A number with points between thousands and a decimal comma.
pub open spec fn comma_number(s: Seq<char>) -> Option<Dec> {
    read_number(replace(replace(trim(s), "."@, ""@), ","@, "."@))
}

pub fn parse_decimal(value: &str) -> (r: Option<Decimal>)
    ensures
        dec(r) == comma_number(value@),
{
    proof {
        reveal_strlit(".");
        reveal_strlit(",");
    }
    let value = trimmed(value);
    let value = replaced(value.as_str(), ".", "");
    let value = replaced(value.as_str(), ",", ".");
    Decimal::parse(value.as_str())
}

/// What `quick_xml` makes of a text with character references, unless one is broken.
pub uninterp spec fn unescaped(s: Seq<char>) -> Option<Seq<char>>;

/// `quick_xml::escape::unescape` puts characters in the place of references; whether
/// it succeeds, and what comes out, depends on the text alone.
#[verifier::external_body]
pub(crate) fn unescape(s: &str) -> (r: Option<String>)
    ensures
        opt(r) == unescaped(s@),
{
    quick_xml::escape::unescape(s).ok().map(|t| t.into_owned())
}

/// A text with its character references resolved; a text without any, or with a
/// broken one, stays as it is.
pub open spec fn resolved(s: Seq<char>) -> Seq<char> {
    if s.contains('&') {
        match unescaped(s) {
            Some(t) => t,
            None => s,
        }
    } else {
        s
    }
}

pub fn decode_entities(value: &str) -> (r: String)
    ensures
        r@ == resolved(value@),
{
    if has_char(value, '&') {
        match unescape(value) {
            Some(t) => t,
            None => value.to_owned(),
        }
    } else {
        value.to_owned()
    }
}

/// How far a file has been read.
#[verifier::ext_equal]
pub struct TaggedView {
    pub document: DocumentView,
    pub sections: Seq<Seq<char>>,
    pub lengths: Seq<nat>,
    pub level_type: Seq<char>,
    pub level_length: Option<nat>,
    pub category: Option<nat>,
    pub item: Option<ItemView>,
    pub pending: Option<(Seq<char>, Seq<char>)>,
}

/// How many headings are open.
pub open spec fn depth(sections: Seq<Seq<char>>) -> nat
    decreases sections.len(),
{
    if sections.len() == 0 {
        0
    } else {
        depth(sections.drop_last()) + if sections.last() == "LVBereich"@ {
            1nat
        } else {
            0nat
        }
    }
}

/// The position of the last section of that name, if one is open.
pub open spec fn last_open(sections: Seq<Seq<char>>, name: Seq<char>) -> Option<nat>
    decreases sections.len(),
{
    if sections.len() == 0 {
        None
    } else if sections.last() == name {
        Some((sections.len() - 1) as nat)
    } else {
        last_open(sections.drop_last(), name)
    }
}

impl TaggedView {
    pub open spec fn innermost(self, name: Seq<char>) -> bool {
        self.sections.len() > 0 && self.sections.last() == name
    }

    /// The state with the open item closed; an item without an ordinal number is dropped.
    pub open spec fn closed(self) -> TaggedView {
        match self.item {
            Some(item) => TaggedView {
                document: if item.oz.len() > 0 {
                    DocumentView {
                        rows: self.document.rows.push(RowView::Item(item)),
                        ..self.document
                    }
                } else {
                    self.document
                },
                item: None,
                ..self
            },
            None => self,
        }
    }

    /// What a value does to the open item.
    pub open spec fn item_value(self, tag: Seq<char>, value: Seq<char>) -> Option<ItemView> {
        match self.item {
            None => None,
            Some(item) => Some(
                if tag == "OZ"@ {
                    if self.innermost("Position"@) {
                        ItemView { oz: dotted(trim(value), self.lengths), ..item }
                    } else {
                        item
                    }
                } else if tag == "Kurztext"@ {
                    ItemView { short_text: trim(value), ..item }
                } else if tag == "Langtext"@ {
                    ItemView { long_text: trim(value), ..item }
                } else if tag == "ME"@ {
                    ItemView { unit: trim(value), ..item }
                } else if tag == "Menge"@ {
                    ItemView { quantity: comma_number(value), ..item }
                } else if tag == "EP"@ {
                    ItemView { unit_price: comma_number(value), ..item }
                } else if tag == "GB"@ {
                    ItemView { total_price: comma_number(value), ..item }
                } else {
                    item
                },
            ),
        }
    }

    /// What a value outside of items does to the state.
    pub open spec fn outer_value(self, tag: Seq<char>, value: Seq<char>) -> TaggedView {
        if tag == "Wae"@ {
            if trim(value).len() > 0 {
                TaggedView {
                    document: DocumentView { currency: trim(value), ..self.document },
                    ..self
                }
            } else {
                self
            }
        } else if tag == "Name"@ {
            if self.sections.contains("PrjInfo"@) {
                TaggedView {
                    document: DocumentView { project: trim(value), ..self.document },
                    ..self
                }
            } else if self.sections.contains("LVInfo"@) {
                TaggedView { document: DocumentView { boq: trim(value), ..self.document }, ..self }
            } else {
                self
            }
        } else if tag == "Typ"@ {
            if self.sections.contains("LVGlied"@) {
                TaggedView { level_type: trim(value), ..self }
            } else {
                self
            }
        } else if tag == "Laenge"@ {
            if self.sections.contains("LVGlied"@) {
                TaggedView { level_length: size_in(trim(value)), ..self }
            } else {
                self
            }
        } else if tag == "OZ"@ {
            if self.innermost("LVBereich"@) {
                TaggedView {
                    document: DocumentView {
                        rows: self.document.rows.push(
                            RowView::Category {
                                oz: dotted(trim(value), self.lengths),
                                title: seq![],
                                level: depth(self.sections),
                            },
                        ),
                        ..self.document
                    },
                    category: Some(self.document.rows.len()),
                    ..self
                }
            } else {
                self
            }
        } else if tag == "Bez"@ {
            if self.innermost("LVBereich"@) && title_at(self.document.rows, self.category) is Some {
                TaggedView {
                    document: DocumentView {
                        rows: retitled(self.document.rows, self.category->0 as int, trim(value)),
                        ..self.document
                    },
                    ..self
                }
            } else {
                self
            }
        } else {
            self
        }
    }

    /// What a tagged value does to the state. Records on surcharges inside an item
    /// are not the item's own.
    #[verifier::opaque]
    pub open spec fn value(self, tag: Seq<char>, raw: Seq<char>) -> TaggedView {
        let value = resolved(trim(raw));
        if tag == "DP"@ {
            TaggedView {
                document: DocumentView { exchange_phase: trim(value), ..self.document },
                ..self
            }
        } else if self.sections.contains("Position"@) && !self.sections.contains("ZuschlPosition"@) {
            TaggedView { item: self.item_value(tag, value), ..self }
        } else {
            self.outer_value(tag, value)
        }
    }

    /// The state after a block is opened.
    pub open spec fn begun(self, section: Seq<char>) -> TaggedView {
        let state = if section == "Position"@ {
            TaggedView { item: Some(empty_item()), ..self.closed() }
        } else if section == "LVGlied"@ {
            TaggedView { level_type: seq![], level_length: None, ..self }
        } else {
            self
        };
        TaggedView { sections: state.sections.push(section), ..state }
    }

    /// The state after a block is closed, with all that is still open inside it.
    pub open spec fn ended(self, section: Seq<char>) -> TaggedView {
        let state = if section == "Position"@ {
            self.closed()
        } else if section == "LVGlied"@ && (self.level_type == "LVStufe"@ || self.level_type
            == "Position"@) {
            match self.level_length {
                Some(length) => TaggedView { lengths: self.lengths.push(length), ..self },
                None => self,
            }
        } else {
            self
        };
        match last_open(state.sections, section) {
            Some(index) => TaggedView { sections: state.sections.take(index as int), ..state },
            None => state,
        }
    }

    /// What one line does to the state.
    #[verifier::opaque]
    pub open spec fn line(self, raw: Seq<char>) -> TaggedView {
        let line = without_end(raw, '\r');
        let content = trim(line);
        match self.pending {
            Some((tag, value)) => match before(content, "[end]"@) {
                Some(last) => {
                    let whole = if last.len() > 0 {
                        with_text_line(value, last)
                    } else {
                        value
                    };
                    TaggedView { pending: None, ..self.value(tag, whole) }
                },
                None => TaggedView {
                    pending: Some((tag, with_text_line(value, trim_start(line)))),
                    ..self
                },
            },
            None => match block(content, "#begin["@) {
                Some(section) => self.begun(section),
                None => match block(content, "#end["@) {
                    Some(section) => self.ended(section),
                    None => match tagged(content) {
                        None => self,
                        Some((tag, rest)) => match before(rest, "[end]"@) {
                            Some(value) => self.value(tag, value),
                            None => TaggedView { pending: Some((tag, rest)), ..self },
                        },
                    },
                },
            },
        }
    }
}

pub open spec fn fresh(source: Seq<char>) -> TaggedView {
    TaggedView {
        document: empty_document(source, seq![]),
        sections: seq![],
        lengths: seq![],
        level_type: seq![],
        level_length: None,
        category: None,
        item: None,
        pending: None,
    }
}

/// The state after the first `n` lines.
pub open spec fn lines_read(all: Seq<Seq<char>>, n: nat, source: Seq<char>) -> TaggedView
    decreases n,
{
    if n == 0 {
        fresh(source)
    } else {
        lines_read(all, (n - 1) as nat, source).line(all[n - 1])
    }
}

/// What a GAEB DA 2000 text says, or why it cannot be read.
pub open spec fn gaeb_2000(source: Seq<char>, text: Seq<char>) -> Result<DocumentView, Seq<char>> {
    let all = lines(text);
    let read = lines_read(all, all.len(), source).closed().document;
    let phase = read.exchange_phase;
    if !exists|i: int| 0 <= i < all.len() && trim(#[trigger] all[i]) == "#begin[GAEB]"@ {
        Err("Kein gültiger GAEB-DA-2000-Kopf gefunden."@)
    } else if phase != "81"@ && phase != "83"@ && phase != "84"@ {
        Err("GAEB DA 2000 Phase P"@ + phase + " wird noch nicht unterstützt."@)
    } else if phase != "81"@ && !has_item(read.rows) {
        Err("GAEB-DA-2000-P83-Datei enthält keine Positionen."@)
    } else {
        Ok(read)
    }
}

/// A value goes its way whatever multi-line value is pending.
pub proof fn lemma_value_pending(a: TaggedView, b: TaggedView, tag: Seq<char>, raw: Seq<char>)
    requires
        b == (TaggedView { pending: None, ..a }),
    ensures
        b.value(tag, raw) == (TaggedView { pending: None, ..a.value(tag, raw) }),
{
    reveal(TaggedView::value);
}

struct Tagged {
    document: GaebDocument,
    sections: Vec<String>,
    lengths: Vec<usize>,
    level_type: String,
    level_length: Option<usize>,
    category: Option<usize>,
    item: Option<GaebItem>,
    pending: Option<(String, String)>,
}

spec fn item_state(v: Option<GaebItem>) -> Option<ItemView> {
    match v {
        Some(item) => Some(item@),
        None => None,
    }
}

impl Tagged {
    spec fn state(self) -> TaggedView {
        TaggedView {
            document: self.document@,
            sections: texts(self.sections@),
            lengths: nats(self.lengths@),
            level_type: self.level_type@,
            level_length: index_view(self.level_length),
            category: index_view(self.category),
            item: item_state(self.item),
            pending: pair_view(self.pending),
        }
    }

    fn innermost(&self, name: &str) -> (r: bool)
        ensures
            r == self.state().innermost(name@),
    {
        let n: usize = self.sections.len();
        if n > 0 {
            assert(texts(self.sections@).last() == self.sections@[n - 1]@);
            same(self.sections[n - 1].as_str(), name)
        } else {
            false
        }
    }

    fn depth(&self) -> (r: usize)
        ensures
            r == depth(texts(self.sections@)),
    {
        let ghost all = texts(self.sections@);
        let mut n: usize = 0;
        let mut i: usize = 0;
        while i < self.sections.len()
            invariant
                n <= i <= self.sections@.len(),
                all == texts(self.sections@),
                n == depth(all.take(i as int)),
            decreases self.sections@.len() - i,
        {
            assert(all.take(i + 1).drop_last() =~= all.take(i as int));
            assert(all.take(i + 1).last() == self.sections@[i as int]@);
            if same(self.sections[i].as_str(), "LVBereich") {
                n = n + 1;
            }
            i = i + 1;
        }
        assert(all.take(i as int) =~= all);
        n
    }

    fn close(&mut self)
        ensures
            final(self).state() == old(self).state().closed(),
    {
        broadcast use lemma_row_views_push;
        let ghost before_state = self.state();
        let item = self.item.take();
        if let Some(item) = item {
            if !item.oz.as_str().is_empty() {
                self.document.rows.push(GaebRow::Item(item));
            }
        }
        assert(self.state() =~= before_state.closed());
    }

    fn item_value(&mut self, tag: &str, value: &str)
        ensures
            final(self).state() == (TaggedView {
                item: old(self).state().item_value(tag@, value@),
                ..old(self).state()
            }),
    {
        let ghost before_state = self.state();
        let innermost = self.innermost("Position");
        let item = self.item.take();
        if let Some(mut item) = item {
            let content = trimmed(value);
            if same(tag, "OZ") {
                if innermost {
                    item.oz = format_compact_oz(content.as_str(), self.lengths.as_slice());
                }
            } else if same(tag, "Kurztext") {
                item.short_text = content;
            } else if same(tag, "Langtext") {
                item.long_text = content;
            } else if same(tag, "ME") {
                item.unit = content;
            } else if same(tag, "Menge") {
                item.quantity = parse_decimal(value);
            } else if same(tag, "EP") {
                item.unit_price = parse_decimal(value);
            } else if same(tag, "GB") {
                item.total_price = parse_decimal(value);
            }
            self.item = Some(item);
        }
        assert(self.state() =~= TaggedView {
            item: before_state.item_value(tag@, value@),
            ..before_state
        });
    }

    fn outer_value(&mut self, tag: &str, value: &str)
        ensures
            final(self).state() == old(self).state().outer_value(tag@, value@),
    {
        broadcast use lemma_row_views_push;
        let ghost before_state = self.state();
        let content = trimmed(value);
        if same(tag, "Wae") {
            if !content.as_str().is_empty() {
                self.document.currency = content;
            }
        } else if same(tag, "Name") {
            if listed(self.sections.as_slice(), "PrjInfo") {
                self.document.project = content;
            } else if listed(self.sections.as_slice(), "LVInfo") {
                self.document.boq = content;
            }
        } else if same(tag, "Typ") {
            if listed(self.sections.as_slice(), "LVGlied") {
                self.level_type = content;
            }
        } else if same(tag, "Laenge") {
            if listed(self.sections.as_slice(), "LVGlied") {
                self.level_length = parse_size(content.as_str());
            }
        } else if same(tag, "OZ") {
            if self.innermost("LVBereich") {
                let oz = format_compact_oz(content.as_str(), self.lengths.as_slice());
                let level = self.depth();
                let at: usize = self.document.rows.len();
                self.document.rows.push(GaebRow::Category { oz, title: String::new(), level });
                self.category = Some(at);
            }
        } else if same(tag, "Bez") {
            if self.innermost("LVBereich") {
                let title = heading_title(&self.document.rows, self.category);
                if let (Some(_), Some(index)) = (title, self.category) {
                    set_heading_title(&mut self.document.rows, index, content);
                }
            }
        }
        assert(self.state() =~= before_state.outer_value(tag@, value@));
    }

    fn value(&mut self, tag: &str, raw: &str)
        ensures
            final(self).state() == old(self).state().value(tag@, raw@),
    {
        proof {
            reveal(TaggedView::value);
        }
        let ghost before_state = self.state();
        let content = trimmed(raw);
        let value = decode_entities(content.as_str());
        if same(tag, "DP") {
            self.document.exchange_phase = trimmed(value.as_str());
        } else if listed(self.sections.as_slice(), "Position") && !listed(
            self.sections.as_slice(),
            "ZuschlPosition",
        ) {
            self.item_value(tag, value.as_str());
        } else {
            self.outer_value(tag, value.as_str());
        }
        assert(self.state() =~= before_state.value(tag@, raw@));
    }

    fn begin(&mut self, section: String)
        ensures
            final(self).state() == old(self).state().begun(section@),
    {
        broadcast use lemma_texts_push;
        let ghost before_state = self.state();
        proof {
            reveal_strlit("Position");
            reveal_strlit("LVGlied");
        }
        if same(section.as_str(), "Position") {
            self.close();
            self.item = Some(GaebItem::default());
        } else if same(section.as_str(), "LVGlied") {
            self.level_type = String::new();
            self.level_length = None;
        }
        self.sections.push(section);
        assert(self.state() =~= before_state.begun(section@));
    }

    fn last_open(&self, name: &str) -> (r: Option<usize>)
        ensures
            index_view(r) == last_open(texts(self.sections@), name@),
            r is Some ==> r->0 < self.sections@.len(),
    {
        let ghost all = texts(self.sections@);
        let mut n: usize = self.sections.len();
        assert(all.take(n as int) =~= all);
        while n > 0
            invariant
                n <= self.sections@.len(),
                all == texts(self.sections@),
                last_open(all, name@) == last_open(all.take(n as int), name@),
            decreases n,
        {
            assert(all.take(n as int).last() == self.sections@[n - 1]@);
            assert(all.take(n as int).drop_last() =~= all.take(n - 1));
            if same(self.sections[n - 1].as_str(), name) {
                return Some(n - 1);
            }
            n = n - 1;
        }
        None
    }

    fn end(&mut self, section: &str)
        ensures
            final(self).state() == old(self).state().ended(section@),
    {
        let ghost before_state = self.state();
        proof {
            reveal_strlit("Position");
            reveal_strlit("LVGlied");
        }
        if same(section, "Position") {
            self.close();
        } else if same(section, "LVGlied") && (same(self.level_type.as_str(), "LVStufe") || same(
            self.level_type.as_str(),
            "Position",
        )) {
            if let Some(length) = self.level_length {
                let ghost lengths = self.lengths@;
                self.lengths.push(length);
                assert(nats(self.lengths@) =~= nats(lengths).push(length as nat));
            }
        }
        if let Some(index) = self.last_open(section) {
            let ghost all = texts(self.sections@);
            self.sections.truncate(index);
            assert(texts(self.sections@) =~= all.take(index as int));
        }
        assert(self.state() =~= before_state.ended(section@));
    }

    fn line(&mut self, raw: &str)
        ensures
            final(self).state() == old(self).state().line(raw@),
    {
        proof {
            reveal(TaggedView::line);
        }
        let ghost before_state = self.state();
        let line = cut_end(raw, '\r');
        let content = trimmed(line.as_str());
        let content = content.as_str();
        let pending = self.pending.take();
        if let Some((tag, mut value)) = pending {
            match strip_suffix(content, "[end]") {
                Some(last) => {
                    if !last.as_str().is_empty() {
                        append_multiline(&mut value, last.as_str());
                    }
                    proof {
                        lemma_value_pending(before_state, self.state(), tag@, value@);
                    }
                    self.value(tag.as_str(), value.as_str());
                },
                None => {
                    append_multiline(&mut value, trimmed_start(line.as_str()).as_str());
                    self.pending = Some((tag, value));
                },
            }
            return;
        }
        assert(self.state() =~= before_state);
        if let Some(section) = block_name(content, "#begin[") {
            self.begin(section);
            return;
        }
        if let Some(section) = block_name(content, "#end[") {
            self.end(section.as_str());
            return;
        }
        if let Some((tag, rest)) = field_start(content) {
            match strip_suffix(rest.as_str(), "[end]") {
                Some(value) => {
                    self.value(tag.as_str(), value.as_str());
                },
                None => {
                    self.pending = Some((tag, rest));
                },
            }
        }
    }
}

pub fn parse_gaeb_2000(source: &str, text: &str) -> (r: Result<GaebDocument, Error>)
    ensures
        outcome(r) == gaeb_2000(source@, text@),
{
    let found = split_lines(text);
    let ghost all = lines(text@);
    assert(found@.len() == texts(found@).len());
    let mut i: usize = 0;
    let mut begun = false;
    while i < found.len() && !begun
        invariant
            i <= found@.len(),
            found@.len() == all.len(),
            all == texts(found@),
            begun ==> exists|j: int|
                0 <= j < all.len() && trim(#[trigger] all[j]) == "#begin[GAEB]"@,
            !begun ==> forall|j: int| 0 <= j < i ==> trim(#[trigger] all[j]) != "#begin[GAEB]"@,
        decreases found@.len() - i,
    {
        assert(all[i as int] == found@[i as int]@);
        if same(trimmed(found[i].as_str()).as_str(), "#begin[GAEB]") {
            begun = true;
        }
        i = i + 1;
    }
    if !begun {
        return Err(failure("Kein gültiger GAEB-DA-2000-Kopf gefunden."));
    }
    let mut tagged = Tagged {
        document: GaebDocument::new(source, ""),
        sections: Vec::new(),
        lengths: Vec::new(),
        level_type: String::new(),
        level_length: None,
        category: None,
        item: None,
        pending: None,
    };
    proof {
        reveal_strlit("");
        assert(""@ =~= Seq::<char>::empty());
        assert(tagged.state() =~= fresh(source@));
    }
    let mut i: usize = 0;
    while i < found.len()
        invariant
            i <= found@.len(),
            all == texts(found@),
            tagged.state() == lines_read(all, i as nat, source@),
        decreases found@.len() - i,
    {
        assert(all[i as int] == found@[i as int]@);
        tagged.line(found[i].as_str());
        i = i + 1;
    }
    tagged.close();
    let phase = tagged.document.exchange_phase.as_str();
    if !same(phase, "81") && !same(phase, "83") && !same(phase, "84") {
        let message = "GAEB DA 2000 Phase P".to_owned().concat(phase).concat(
            " wird noch nicht unterstützt.",
        );
        return Err(Error { message });
    }
    if !same(phase, "81") && !any_item(&tagged.document.rows) {
        return Err(failure("GAEB-DA-2000-P83-Datei enthält keine Positionen."));
    }
    Ok(tagged.document)
}

/// Reads a GAEB DA 2000 file of the phases P81, P83 and P84, given its bytes.
pub fn read_gaeb_2000(source: &str, bytes: &[u8]) -> (r: Result<GaebDocument, Error>)
    ensures
        outcome(r) == gaeb_2000(source@, windows_1252_text(bytes@)),
{
    let text = decode_windows_1252(bytes);
    parse_gaeb_2000(source, text.as_str())
}

} // verus!
