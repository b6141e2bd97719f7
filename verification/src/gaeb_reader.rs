//! Reading of GAEB DA XML, and what its pages say in print.

use crate::decimal::{dec, read_number, Dec, Decimal};
use crate::document::{
    any_item, empty_document, empty_item, failure, has_item, heading_title, index_view,
    lemma_row_views_push, retitled, row_views, set_heading_title, title_at, DocumentView, Error,
    ItemView, RowView,
};
use crate::gaeb90::outcome;
use crate::text::{
    after_last, join, joined, last_part, lemma_texts_push, lines, listed, lossy, readable, replace,
    replaced, same, split_lines, split_words, texts, trim, trimmed, words,
};
use crate::xml::{
    attribute_view, attribute_views, event_views, read_events, xml_events, AttributeView,
    RawAttribute, XmlEvent, XmlEventView,
};
use vstd::prelude::*;

pub use crate::document::{GaebDocument, GaebItem, GaebRow};

verus! {

/// A name without its namespace prefix.
pub open spec fn local(name: Seq<u8>) -> Seq<char> {
    after_last(readable(name), ':')
}

pub fn local_name(name: &[u8]) -> (r: String)
    ensures
        r@ == local(name@),
{
    let text = lossy(name);
    last_part(text.as_str(), ':')
}

/// A text with another one behind it, a blank between.
pub open spec fn with_word(target: Seq<char>, value: Seq<char>) -> Seq<char> {
    if target.len() > 0 {
        target.push(' ') + value
    } else {
        target + value
    }
}

pub fn append_text(target: &mut String, value: &str)
    ensures
        final(target)@ == with_word(old(target)@, value@),
{
    if !target.as_str().is_empty() {
        target.push(' ');
    }
    target.append(value);
}

/// A number with a decimal point or comma.
pub open spec fn point_number(s: Seq<char>) -> Option<Dec> {
    read_number(replace(trim(s), ","@, "."@))
}

pub fn parse_decimal(value: &str) -> (r: Option<Decimal>)
    ensures
        dec(r) == point_number(value@),
{
    proof {
        reveal_strlit(",");
    }
    let value = trimmed(value);
    let value = replaced(value.as_str(), ",", ".");
    Decimal::parse(value.as_str())
}

/// The value of the first attribute with this name. An attribute in front of it that
/// cannot be read is an error.
pub open spec fn attribute_named(attributes: Seq<AttributeView>, n: nat, name: Seq<char>) -> Result<
    Option<Seq<char>>,
    Seq<char>,
>
    decreases attributes.len() - n,
{
    if n >= attributes.len() {
        Ok(None)
    } else {
        match attributes[n as int] {
            Err(e) => Err(e),
            Ok((key, value)) => if local(key) == name {
                match value {
                    Ok(v) => Ok(Some(v)),
                    Err(e) => Err(e),
                }
            } else {
                attribute_named(attributes, n + 1, name)
            },
        }
    }
}

pub open spec fn attribute_result(r: Result<Option<String>, Error>) -> Result<
    Option<Seq<char>>,
    Seq<char>,
> {
    match r {
        Ok(v) => Ok(crate::model::opt_text(v)),
        Err(e) => Err(e@),
    }
}

pub fn attribute(attributes: &Vec<RawAttribute>, name: &str) -> (r: Result<Option<String>, Error>)
    ensures
        attribute_result(r) == attribute_named(attribute_views(attributes@), 0, name@),
{
    let ghost all = attribute_views(attributes@);
    let mut i: usize = 0;
    while i < attributes.len()
        invariant
            i <= attributes@.len(),
            all == attribute_views(attributes@),
            attribute_named(all, i as nat, name@) == attribute_named(all, 0, name@),
        decreases attributes@.len() - i,
    {
        assert(all[i as int] == attribute_view(attributes@[i as int]));
        match &attributes[i] {
            Err(e) => {
                return Err(Error { message: e.clone() });
            },
            Ok((key, value)) => {
                if same(local_name(key.as_slice()).as_str(), name) {
                    match value {
                        Ok(v) => {
                            return Ok(Some(v.clone()));
                        },
                        Err(e) => {
                            return Err(Error { message: e.clone() });
                        },
                    }
                }
            },
        }
        i = i + 1;
    }
    Ok(None)
}

/// How far a document has been read.
#[verifier::ext_equal]
pub struct XmlView {
    pub document: DocumentView,
    pub elements: Seq<Seq<char>>,
    pub categories: Seq<Seq<char>>,
    pub category: Option<nat>,
    pub item: Option<ItemView>,
    pub gaeb: bool,
}

/// The last heading of a level, if there is one.
pub open spec fn last_heading(rows: Seq<RowView>, level: nat) -> Option<nat>
    decreases rows.len(),
{
    if rows.len() == 0 {
        None
    } else {
        match rows.last() {
            RowView::Category { oz: _, title: _, level: l } if l == level => Some(
                (rows.len() - 1) as nat,
            ),
            _ => last_heading(rows.drop_last(), level),
        }
    }
}

pub open spec fn or_empty(v: Option<Seq<char>>) -> Seq<char> {
    match v {
        Some(s) => s,
        None => seq![],
    }
}

impl XmlView {
    pub open spec fn inside(self, name: Seq<char>) -> bool {
        self.elements.contains(name)
    }

    pub open spec fn current(self) -> Seq<char> {
        if self.elements.len() > 0 {
            self.elements.last()
        } else {
            seq![]
        }
    }

    /// What a text does to the open item.
    pub open spec fn item_text(self, item: ItemView, text: Seq<char>) -> ItemView {
        let current = self.current();
        if self.inside("TextOutlTxt"@) {
            ItemView { short_text: with_word(item.short_text, text), ..item }
        } else if self.inside("DetailTxt"@) {
            ItemView { long_text: with_word(item.long_text, text), ..item }
        } else if current == "Qty"@ {
            ItemView { quantity: point_number(text), ..item }
        } else if current == "QU"@ {
            ItemView { unit: text, ..item }
        } else if current == "UP"@ {
            ItemView { unit_price: point_number(text), ..item }
        } else if current == "IT"@ {
            ItemView { total_price: point_number(text), ..item }
        } else {
            item
        }
    }

    /// What a text outside of items and titles does to the document.
    pub open spec fn document_text(self, text: Seq<char>) -> DocumentView {
        let current = self.current();
        let document = self.document;
        if current == "LblPrj"@ {
            DocumentView { project: text, ..document }
        } else if current == "NamePrj"@ && document.project.len() == 0 {
            DocumentView { project: text, ..document }
        } else if current == "LblBoQ"@ && document.boq.len() == 0 {
            DocumentView { boq: text, ..document }
        } else if current == "DP"@ && document.exchange_phase.len() == 0 {
            DocumentView { exchange_phase: text, ..document }
        } else if current == "Cur"@ {
            DocumentView { currency: text, ..document }
        } else {
            document
        }
    }

    /// What a text that is not blank does to the state.
    pub open spec fn text(self, text: Seq<char>) -> XmlView {
        if self.inside("Item"@) {
            match self.item {
                Some(item) => XmlView { item: Some(self.item_text(item, text)), ..self },
                None => self,
            }
        } else if self.inside("LblTx"@) {
            match title_at(self.document.rows, self.category) {
                Some(title) => XmlView {
                    document: DocumentView {
                        rows: retitled(
                            self.document.rows,
                            self.category->0 as int,
                            with_word(title, text),
                        ),
                        ..self.document
                    },
                    ..self
                },
                None => self,
            }
        } else {
            XmlView { document: self.document_text(text), ..self }
        }
    }

    pub open spec fn started(self, name: Seq<char>, attributes: Seq<AttributeView>) -> Result<
        XmlView,
        Seq<char>,
    > {
        let part = attribute_named(attributes, 0, "RNoPart"@);
        let seen = XmlView { gaeb: self.gaeb || name == "GAEB"@, ..self };
        if name == "BoQCtgy"@ {
            match part {
                Err(e) => Err(e),
                Ok(part) => {
                    let categories = self.categories.push(or_empty(part));
                    Ok(
                        XmlView {
                            document: DocumentView {
                                rows: self.document.rows.push(
                                    RowView::Category {
                                        oz: join(categories, "."@),
                                        title: seq![],
                                        level: categories.len(),
                                    },
                                ),
                                ..self.document
                            },
                            categories,
                            category: Some(self.document.rows.len()),
                            elements: self.elements.push(name),
                            ..seen
                        },
                    )
                },
            }
        } else if name == "Item"@ {
            match part {
                Err(e) => Err(e),
                Ok(part) => Ok(
                    XmlView {
                        item: Some(
                            ItemView {
                                oz: join(self.categories.push(or_empty(part)), "."@),
                                ..empty_item()
                            },
                        ),
                        elements: self.elements.push(name),
                        ..seen
                    },
                ),
            }
        } else {
            Ok(XmlView { elements: self.elements.push(name), ..seen })
        }
    }

    pub open spec fn ended(self, name: Seq<char>) -> XmlView {
        let closed = if name == "Item"@ {
            match self.item {
                Some(item) => XmlView {
                    document: DocumentView {
                        rows: self.document.rows.push(RowView::Item(item)),
                        ..self.document
                    },
                    item: None,
                    ..self
                },
                None => self,
            }
        } else if name == "BoQCtgy"@ {
            let categories = without_last(self.categories);
            XmlView {
                categories,
                category: last_heading(self.document.rows, categories.len()),
                ..self
            }
        } else {
            self
        };
        XmlView { elements: without_last(self.elements), ..closed }
    }

    /// What one event does to the state.
    pub open spec fn event(self, event: XmlEventView) -> Result<XmlView, Seq<char>> {
        match event {
            XmlEventView::Start(name, attributes) => self.started(local(name), attributes),
            XmlEventView::Empty(name) => Ok(
                XmlView { gaeb: self.gaeb || local(name) == "GAEB"@, ..self },
            ),
            XmlEventView::Text(Ok(text)) => Ok(
                if trim(text).len() > 0 {
                    self.text(trim(text))
                } else {
                    self
                },
            ),
            XmlEventView::Text(Err(e)) => Err(e),
            XmlEventView::End(name) => Ok(self.ended(local(name))),
            XmlEventView::Other => Ok(self),
            XmlEventView::Eof => Ok(self),
            XmlEventView::Failed(e) => Err(e),
        }
    }
}

/// A row without its last element, if it has one.
pub open spec fn without_last(s: Seq<Seq<char>>) -> Seq<Seq<char>> {
    if s.len() > 0 {
        s.drop_last()
    } else {
        s
    }
}

pub open spec fn unread(source: Seq<char>) -> XmlView {
    XmlView {
        document: empty_document(source, seq![]),
        elements: seq![],
        categories: seq![],
        category: None,
        item: None,
        gaeb: false,
    }
}

/// The state after the first `n` events of a document; the first event that cannot be
/// read ends it.
pub open spec fn read_until(state: XmlView, events: Seq<XmlEventView>, n: nat) -> Result<
    XmlView,
    Seq<char>,
>
    decreases n,
{
    if n == 0 {
        Ok(state)
    } else {
        match read_until(state, events, (n - 1) as nat) {
            Ok(before) => before.event(events[n - 1]),
            Err(e) => Err(e),
        }
    }
}

proof fn lemma_read_failed(state: XmlView, events: Seq<XmlEventView>, n: nat, m: nat)
    requires
        n <= m,
        read_until(state, events, n) is Err,
    ensures
        read_until(state, events, m) == read_until(state, events, n),
    decreases m,
{
    if n < m {
        lemma_read_failed(state, events, n, (m - 1) as nat);
    }
}

/// Whether some row is a heading.
pub open spec fn has_heading(rows: Seq<RowView>) -> bool {
    exists|i: int| 0 <= i < rows.len() && #[trigger] rows[i] is Category
}

/// What the events of a GAEB DA XML document say, or why it cannot be read.
pub open spec fn gaeb_events(source: Seq<char>, events: Seq<XmlEventView>) -> Result<
    DocumentView,
    Seq<char>,
> {
    match read_until(unread(source), events, events.len()) {
        Err(e) => Err(e),
        Ok(state) => if !state.gaeb {
            Err("Die Datei ist kein unterstütztes GAEB-DA-XML-Dokument."@)
        } else if !has_item(state.document.rows) && !(state.document.exchange_phase == "81"@
            && has_heading(state.document.rows)) {
            Err("Die GAEB-Datei enthält keine lesbaren LV-Positionen."@)
        } else {
            Ok(state.document)
        },
    }
}

/// What a GAEB DA XML document says, or why it cannot be read.
pub open spec fn gaeb_xml(source: Seq<char>, bytes: Seq<u8>) -> Result<DocumentView, Seq<char>> {
    gaeb_events(source, xml_events(bytes))
}

struct XmlState {
    document: GaebDocument,
    elements: Vec<String>,
    categories: Vec<String>,
    category: Option<usize>,
    item: Option<GaebItem>,
    gaeb: bool,
}

spec fn item_state(v: Option<GaebItem>) -> Option<ItemView> {
    match v {
        Some(item) => Some(item@),
        None => None,
    }
}

fn any_heading(rows: &Vec<GaebRow>) -> (r: bool)
    ensures
        r == has_heading(row_views(rows@)),
{
    let mut i: usize = 0;
    while i < rows.len()
        invariant
            i <= rows@.len(),
            forall|j: int| 0 <= j < i ==> !(#[trigger] row_views(rows@)[j] is Category),
        decreases rows@.len() - i,
    {
        if let GaebRow::Category { .. } = &rows[i] {
            assert(row_views(rows@)[i as int] is Category);
            return true;
        }
        i = i + 1;
    }
    false
}

fn find_heading(rows: &Vec<GaebRow>, level: usize) -> (r: Option<usize>)
    ensures
        index_view(r) == last_heading(row_views(rows@), level as nat),
{
    let ghost all = row_views(rows@);
    let mut n: usize = rows.len();
    assert(all.take(n as int) =~= all);
    while n > 0
        invariant
            n <= rows@.len(),
            all == row_views(rows@),
            last_heading(all, level as nat) == last_heading(all.take(n as int), level as nat),
        decreases n,
    {
        assert(all.take(n as int).last() == rows@[n - 1]@);
        assert(all.take(n as int).drop_last() =~= all.take(n - 1));
        if let GaebRow::Category { oz: _, title: _, level: l } = &rows[n - 1] {
            if *l == level {
                return Some(n - 1);
            }
        }
        n = n - 1;
    }
    None
}

pub fn clone_texts(v: &Vec<String>) -> (r: Vec<String>)
    ensures
        texts(r@) == texts(v@),
{
    let mut r: Vec<String> = Vec::new();
    let mut i: usize = 0;
    while i < v.len()
        invariant
            i <= v@.len(),
            texts(r@) == texts(v@).take(i as int),
        decreases v@.len() - i,
    {
        broadcast use lemma_texts_push;
        r.push(v[i].clone());
        assert(texts(v@).take(i + 1) =~= texts(v@).take(i as int).push(v@[i as int]@));
        i = i + 1;
    }
    assert(texts(v@).take(i as int) =~= texts(v@));
    r
}

impl XmlState {
    spec fn state(self) -> XmlView {
        XmlView {
            document: self.document@,
            elements: texts(self.elements@),
            categories: texts(self.categories@),
            category: index_view(self.category),
            item: item_state(self.item),
            gaeb: self.gaeb,
        }
    }

    fn inside(&self, name: &str) -> (r: bool)
        ensures
            r == self.state().inside(name@),
    {
        listed(self.elements.as_slice(), name)
    }

    fn current(&self) -> (r: String)
        ensures
            r@ == self.state().current(),
    {
        let n: usize = self.elements.len();
        if n > 0 {
            assert(texts(self.elements@).last() == self.elements@[n - 1]@);
            self.elements[n - 1].clone()
        } else {
            String::new()
        }
    }

    fn item_text(&self, item: GaebItem, text: &str) -> (r: GaebItem)
        ensures
            r@ == self.state().item_text(item@, text@),
    {
        let mut item = item;
        let current = self.current();
        let current = current.as_str();
        if self.inside("TextOutlTxt") {
            append_text(&mut item.short_text, text);
        } else if self.inside("DetailTxt") {
            append_text(&mut item.long_text, text);
        } else if same(current, "Qty") {
            item.quantity = parse_decimal(text);
        } else if same(current, "QU") {
            item.unit = text.to_owned();
        } else if same(current, "UP") {
            item.unit_price = parse_decimal(text);
        } else if same(current, "IT") {
            item.total_price = parse_decimal(text);
        }
        item
    }

    fn text(&mut self, text: &str)
        ensures
            final(self).state() == old(self).state().text(text@),
    {
        let ghost before = self.state();
        if self.inside("Item") {
            let item = self.item.take();
            if let Some(item) = item {
                let ghost elements = self.state().elements;
                let item = self.item_text(item, text);
                self.item = Some(item);
            }
            assert(self.state() =~= before.text(text@));
        } else if self.inside("LblTx") {
            let title = heading_title(&self.document.rows, self.category);
            if let (Some(mut title), Some(index)) = (title, self.category) {
                append_text(&mut title, text);
                set_heading_title(&mut self.document.rows, index, title);
            }
            assert(self.state() =~= before.text(text@));
        } else {
            let current = self.current();
            let current = current.as_str();
            if same(current, "LblPrj") {
                self.document.project = text.to_owned();
            } else if same(current, "NamePrj") && self.document.project.as_str().is_empty() {
                self.document.project = text.to_owned();
            } else if same(current, "LblBoQ") && self.document.boq.as_str().is_empty() {
                self.document.boq = text.to_owned();
            } else if same(current, "DP") && self.document.exchange_phase.as_str().is_empty() {
                self.document.exchange_phase = text.to_owned();
            } else if same(current, "Cur") {
                self.document.currency = text.to_owned();
            }
            assert(self.state() =~= before.text(text@));
        }
    }

    fn start(&mut self, name: String, attributes: &Vec<RawAttribute>) -> (r: Result<(), Error>)
        ensures
            (match old(self).state().started(name@, attribute_views(attributes@)) {
                Ok(next) => r is Ok && final(self).state() == next,
                Err(e) => r is Err && r->Err_0@ == e,
            }),
    {
        broadcast use {lemma_row_views_push, lemma_texts_push};
        let ghost before = self.state();
        if same(name.as_str(), "GAEB") {
            self.gaeb = true;
        }
        if same(name.as_str(), "BoQCtgy") {
            let part = match attribute(attributes, "RNoPart") {
                Ok(Some(part)) => part,
                Ok(None) => String::new(),
                Err(e) => {
                    return Err(e);
                },
            };
            self.categories.push(part);
            let oz = joined(self.categories.as_slice(), ".");
            let at: usize = self.document.rows.len();
            let level: usize = self.categories.len();
            assert(texts(self.categories@).len() == level);
            self.document.rows.push(GaebRow::Category { oz, title: String::new(), level });
            self.category = Some(at);
        } else if same(name.as_str(), "Item") {
            let part = match attribute(attributes, "RNoPart") {
                Ok(Some(part)) => part,
                Ok(None) => String::new(),
                Err(e) => {
                    return Err(e);
                },
            };
            let mut path = clone_texts(&self.categories);
            path.push(part);
            let mut item = GaebItem::default();
            item.oz = joined(path.as_slice(), ".");
            self.item = Some(item);
        }
        self.elements.push(name);
        assert(self.state() =~= before.started(name@, attribute_views(attributes@))->Ok_0);
        Ok(())
    }

    fn end(&mut self, name: &str)
        ensures
            final(self).state() == old(self).state().ended(name@),
    {
        broadcast use lemma_row_views_push;
        let ghost before = self.state();
        if same(name, "Item") {
            let item = self.item.take();
            if let Some(item) = item {
                self.document.rows.push(GaebRow::Item(item));
            }
        } else if same(name, "BoQCtgy") {
            let ghost all = texts(self.categories@);
            self.categories.pop();
            assert(texts(self.categories@) =~= without_last(all));
            assert(self.categories@.len() == texts(self.categories@).len());
            self.category = find_heading(&self.document.rows, self.categories.len());
        }
        let ghost all = texts(self.elements@);
        self.elements.pop();
        assert(texts(self.elements@) =~= without_last(all));
        assert(self.state() =~= before.ended(name@));
    }

    fn event(&mut self, event: &XmlEvent) -> (r: Result<(), Error>)
        ensures
            (match old(self).state().event(event@) {
                Ok(next) => r is Ok && final(self).state() == next,
                Err(e) => r is Err && r->Err_0@ == e,
            }),
    {
        match event {
            XmlEvent::Start(name, attributes) => {
                let name = local_name(name.as_slice());
                self.start(name, attributes)
            },
            XmlEvent::Empty(name) => {
                if same(local_name(name.as_slice()).as_str(), "GAEB") {
                    self.gaeb = true;
                }
                Ok(())
            },
            XmlEvent::Text(Ok(text)) => {
                let text = trimmed(text.as_str());
                if !text.as_str().is_empty() {
                    self.text(text.as_str());
                }
                Ok(())
            },
            XmlEvent::Text(Err(message)) => Err(Error { message: message.clone() }),
            XmlEvent::End(name) => {
                let name = local_name(name.as_slice());
                self.end(name.as_str());
                Ok(())
            },
            XmlEvent::Other => Ok(()),
            XmlEvent::Eof => Ok(()),
            XmlEvent::Failed(message) => Err(Error { message: message.clone() }),
        }
    }
}

/// Reads a GAEB DA XML document, given its events.
pub fn read_gaeb_events(source: &str, events: &Vec<XmlEvent>) -> (r: Result<GaebDocument, Error>)
    ensures
        outcome(r) == gaeb_events(source@, event_views(events@)),
{
    let mut state = XmlState {
        document: GaebDocument::new(source, ""),
        elements: Vec::new(),
        categories: Vec::new(),
        category: None,
        item: None,
        gaeb: false,
    };
    let ghost all = event_views(events@);
    proof {
        reveal_strlit("");
        assert(""@ =~= Seq::<char>::empty());
        assert(state.state() =~= unread(source@));
    }
    let mut i: usize = 0;
    while i < events.len()
        invariant
            i <= events@.len(),
            all == event_views(events@),
            read_until(unread(source@), all, i as nat) == Ok::<XmlView, Seq<char>>(state.state()),
        decreases events@.len() - i,
    {
        assert(all[i as int] == events@[i as int]@);
        match state.event(&events[i]) {
            Ok(()) => {},
            Err(e) => {
                proof {
                    lemma_read_failed(unread(source@), all, (i + 1) as nat, all.len());
                }
                return Err(e);
            },
        }
        i = i + 1;
    }
    if !state.gaeb {
        return Err(failure("Die Datei ist kein unterstütztes GAEB-DA-XML-Dokument."));
    }
    if !any_item(&state.document.rows) && !(same(state.document.exchange_phase.as_str(), "81")
        && any_heading(&state.document.rows)) {
        return Err(failure("Die GAEB-Datei enthält keine lesbaren LV-Positionen."));
    }
    Ok(state.document)
}

/// Reads a GAEB DA XML file, given its bytes.
pub fn read_gaeb_xml(source: &str, bytes: &[u8]) -> (r: Result<GaebDocument, Error>)
    ensures
        outcome(r) == gaeb_xml(source@, bytes@),
{
    let events = read_events(bytes);
    read_gaeb_events(source, &events)
}

/// The lines so far and the line under construction.
#[verifier::ext_equal]
pub struct Wrapping {
    pub lines: Seq<Seq<char>>,
    pub current: Seq<char>,
}

impl Wrapping {
    /// One more word: on the current line where it fits, else on a new one.
    pub open spec fn word(self, word: Seq<char>, width: nat) -> Wrapping {
        if self.current.len() > 0 && self.current.len() + 1 + word.len() > width {
            Wrapping { lines: self.lines.push(self.current), current: word }
        } else {
            Wrapping { lines: self.lines, current: with_word(self.current, word) }
        }
    }

    /// The end of a paragraph.
    pub open spec fn end(self) -> Wrapping {
        if self.current.len() > 0 {
            Wrapping { lines: self.lines.push(self.current), current: seq![] }
        } else {
            self
        }
    }
}

/// The state after the first `n` words.
pub open spec fn with_words(start: Wrapping, all: Seq<Seq<char>>, n: nat, width: nat) -> Wrapping
    decreases n,
{
    if n == 0 {
        start
    } else {
        with_words(start, all, (n - 1) as nat, width).word(all[n - 1], width)
    }
}

/// The lines after the first `n` paragraphs.
pub open spec fn wrapped(paragraphs: Seq<Seq<char>>, n: nat, width: nat) -> Seq<Seq<char>>
    decreases n,
{
    if n == 0 {
        seq![]
    } else {
        let all = words(paragraphs[n - 1]);
        let start = Wrapping {
            lines: wrapped(paragraphs, (n - 1) as nat, width),
            current: seq![],
        };
        with_words(start, all, all.len(), width).end().lines
    }
}

/// Breaks a text into lines of at most `max_chars` characters, between words. A word
/// that is longer has a line of its own.
pub fn wrap(value: &str, max_chars: usize) -> (r: Vec<String>)
    ensures
        texts(r@) == wrapped(lines(value@), lines(value@).len(), max_chars as nat),
{
    broadcast use lemma_texts_push;
    let paragraphs = split_lines(value);
    let ghost all = lines(value@);
    assert(paragraphs@.len() == texts(paragraphs@).len());
    let mut r: Vec<String> = Vec::new();
    let mut i: usize = 0;
    assert(texts(r@) =~= wrapped(all, 0, max_chars as nat));
    while i < paragraphs.len()
        invariant
            i <= paragraphs@.len(),
            all == texts(paragraphs@),
            texts(r@) == wrapped(all, i as nat, max_chars as nat),
        decreases paragraphs@.len() - i,
    {
        broadcast use lemma_texts_push;
        assert(all[i as int] == paragraphs@[i as int]@);
        let found = split_words(paragraphs[i].as_str());
        let ghost ws = words(all[i as int]);
        assert(found@.len() == texts(found@).len());
        let ghost start = Wrapping { lines: texts(r@), current: seq![] };
        let mut current = String::new();
        let mut k: usize = 0;
        assert(current@ =~= start.current);
        while k < found.len()
            invariant
                k <= found@.len(),
                ws == texts(found@),
                with_words(start, ws, k as nat, max_chars as nat) == (Wrapping {
                    lines: texts(r@),
                    current: current@,
                }),
            decreases found@.len() - k,
        {
            broadcast use lemma_texts_push;
            assert(ws[k as int] == found@[k as int]@);
            let ghost before = Wrapping { lines: texts(r@), current: current@ };
            let used: usize = current.as_str().unicode_len();
            let size: usize = found[k].as_str().unicode_len();
            if !current.as_str().is_empty() && (used >= max_chars || size > max_chars - used - 1) {
                r.push(current);
                current = String::new();
            }
            append_text(&mut current, found[k].as_str());
            assert(Wrapping { lines: texts(r@), current: current@ } =~= before.word(
                ws[k as int],
                max_chars as nat,
            ));
            k = k + 1;
        }
        if !current.as_str().is_empty() {
            r.push(current);
        }
        i = i + 1;
    }
    r
}

/// A character as the printed page shows it: dashes and quotation marks in ASCII.
pub open spec fn printable_char(c: char) -> char {
    if c == '–' || c == '—' {
        '-'
    } else if c == '“' || c == '”' {
        '"'
    } else if c == '’' {
        '\''
    } else {
        c
    }
}

pub fn printable(value: &str) -> (r: String)
    ensures
        r@ == value@.map_values(|c: char| printable_char(c)),
{
    let v = crate::text::chars(value);
    let ghost all = value@.map_values(|c: char| printable_char(c));
    let mut r = String::new();
    let mut i: usize = 0;
    while i < v.len()
        invariant
            v@ == value@,
            all == value@.map_values(|c: char| printable_char(c)),
            i <= v@.len(),
            r@ == all.take(i as int),
        decreases v@.len() - i,
    {
        let c = v[i];
        let d = match c {
            '–' => '-',
            '—' => '-',
            '“' => '"',
            '”' => '"',
            '’' => '\'',
            _ => c,
        };
        assert(all.take(i + 1) =~= all.take(i as int).push(printable_char(c)));
        r.push(d);
        i = i + 1;
    }
    assert(all.take(i as int) =~= all);
    r
}

/// What the printed page says of an item.
pub struct PrintedItem {
    pub short_lines: Vec<String>,
    pub long_lines: Vec<String>,
    pub quantity: String,
    pub amount: String,
}

/// The amount of an item: its total, or else its unit price.
pub open spec fn amount_text(item: ItemView) -> Seq<char> {
    let price = match item.total_price {
        Some(d) => Some(d),
        None => item.unit_price,
    };
    match price {
        Some(d) => d.normalize().plain() + " EUR"@,
        None => seq![],
    }
}

/// The quantity of an item and its unit.
pub open spec fn quantity_text(item: ItemView) -> Seq<char> {
    let quantity = match item.quantity {
        Some(d) => d.normalize().plain(),
        None => seq![],
    };
    quantity + " "@ + item.unit
}

/// The lines of a text in print.
pub open spec fn printed(value: Seq<char>, width: nat) -> Seq<Seq<char>> {
    wrapped(lines(value), lines(value).len(), width)
}

pub fn print_item(item: &GaebItem) -> (r: PrintedItem)
    ensures
        texts(r.short_lines@) == printed(
            if item@.short_text.len() == 0 {
                "(ohne Kurztext)"@
            } else {
                item@.short_text
            },
            72,
        ),
        texts(r.long_lines@) == printed(item@.long_text, 88),
        r.quantity@ == quantity_text(item@),
        r.amount@ == amount_text(item@),
{
    let short_lines = if item.short_text.as_str().is_empty() {
        wrap("(ohne Kurztext)", 72)
    } else {
        wrap(item.short_text.as_str(), 72)
    };
    let long_lines = wrap(item.long_text.as_str(), 88);
    let quantity = match item.quantity {
        Some(d) => d.normalize().plain(),
        None => String::new(),
    };
    let quantity = quantity.concat(" ").concat(item.unit.as_str());
    let price = match item.total_price {
        Some(d) => Some(d),
        None => item.unit_price,
    };
    let amount = match price {
        Some(d) => d.normalize().plain().concat(" EUR"),
        None => String::new(),
    };
    PrintedItem { short_lines, long_lines, quantity, amount }
}

/// A text as the printed page shows it.
pub open spec fn printable_text(value: Seq<char>) -> Seq<char> {
    value.map_values(|c: char| printable_char(c))
}

/// The lines at the head of the printed document: the file, the project and the bill as
/// far as they have names of their own, the phase and the currency.
pub open spec fn head_lines_of(document: DocumentView) -> Seq<Seq<char>> {
    let file = seq!["Datei: "@ + printable_text(document.source)];
    let project = if document.project.len() > 0 {
        seq!["Projekt: "@ + printable_text(document.project)]
    } else {
        seq![]
    };
    let bill = if document.boq.len() > 0 && document.boq != document.project {
        seq!["LV: "@ + printable_text(document.boq)]
    } else {
        seq![]
    };
    (file + project + bill).push(
        "Austauschphase: X"@ + document.exchange_phase + "   Währung: "@ + printable_text(
            document.currency,
        ),
    )
}

pub fn head_lines(document: &GaebDocument) -> (r: Vec<String>)
    ensures
        texts(r@) == head_lines_of(document@),
{
    broadcast use lemma_texts_push;
    let mut r: Vec<String> = Vec::new();
    assert(texts(r@) =~= seq![]);
    r.push("Datei: ".to_owned().concat(printable(document.source.as_str()).as_str()));
    if !document.project.as_str().is_empty() {
        r.push("Projekt: ".to_owned().concat(printable(document.project.as_str()).as_str()));
    }
    if !document.boq.as_str().is_empty() && !same(
        document.boq.as_str(),
        document.project.as_str(),
    ) {
        r.push("LV: ".to_owned().concat(printable(document.boq.as_str()).as_str()));
    }
    r.push(
        "Austauschphase: X".to_owned().concat(document.exchange_phase.as_str()).concat(
            "   Währung: ",
        ).concat(printable(document.currency.as_str()).as_str()),
    );
    assert(texts(r@) =~= head_lines_of(document@));
    r
}

/// The line of a heading in print.
pub fn print_heading(oz: &str, title: &str) -> (r: String)
    ensures
        r@ == printable_text(oz@ + "  "@ + title@),
{
    printable(oz.to_owned().concat("  ").concat(title).as_str())
}

} // verus!
