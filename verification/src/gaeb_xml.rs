//! The parts that the GAEB DA XML documents of a bill have in common.

use crate::clock::{Moment, MomentView};
use crate::decimal::Dec;
use crate::document::DocumentView;
use crate::gaeb90_export::{or_else, text_or};
use crate::gaeb_reader::gaeb_xml;
use crate::gaeb_xml_laws::{
    comes_back, document_back, law_document_reads_back, lemma_sound_document, read_as_bill,
};
use crate::model::{
    group_model_views, node_views, position_views, BillOfQuantities, BoqView, Node, NodeView,
    Position, PositionView,
};
use crate::text::{
    after_last, digits, last_part, lines, number, pad_left, padded_left, same, split_lines, texts,
    trim, trimmed,
};
use crate::title_cleanup::{clean_title, strip_trailing_totals};
use crate::xml::{element, pairs, start_tag, xml_bytes, XmlItem, XmlItemView, XmlOutput};
use vstd::prelude::*;

verus! {

/// How a document shows its items.
#[derive(Clone, Copy, PartialEq, Eq, Structural)]
pub enum Style {
    /// Without prices, with titles free of sums.
    Request,
    /// With prices.
    Priced,
    /// With prices only: neither quantities nor descriptions are repeated.
    Offer,
}

/// Numbers for the elements of a document.
pub struct IdGenerator(pub u64);

/// The identifier with a number.
pub open spec fn id_text(n: nat) -> Seq<char> {
    "id"@ + pad_left(digits(n), 8, '0')
}

impl IdGenerator {
    pub fn next(&mut self) -> (r: String)
        requires
            old(self).0 < u64::MAX,
        ensures
            final(self).0 == old(self).0 + 1,
            r@ == id_text(final(self).0 as nat),
    {
        self.0 = self.0 + 1;
        let n = number(self.0);
        let n = padded_left(n.as_str(), 8, '0');
        "id".to_owned().concat(n.as_str())
    }
}

/// A start tag with an identifier and the last part of an ordinal number.
pub open spec fn numbered_tag(name: Seq<char>, id: nat, oz: Seq<char>) -> XmlItemView {
    XmlItemView::Start(name, seq![("ID"@, id_text(id)), ("RNoPart"@, after_last(oz, '.'))])
}

fn numbered_start(out: &mut XmlOutput, name: &str, ids: &mut IdGenerator, oz: &str)
    requires
        old(ids).0 < u64::MAX,
    ensures
        final(ids).0 == old(ids).0 + 1,
        final(out)@ == old(out)@.push(numbered_tag(name@, final(ids).0 as nat, oz@)),
{
    let id = ids.next();
    let part = last_part(oz, '.');
    let attributes = vec![("ID".to_owned(), id), ("RNoPart".to_owned(), part)];
    assert(pairs(attributes@) =~= seq![("ID"@, id@), ("RNoPart"@, part@)]);
    out.put(XmlItem::Start(name.to_owned(), attributes));
}

/// The events of one paragraph.
pub open spec fn paragraph(value: Seq<char>) -> Seq<XmlItemView> {
    seq![start_tag("p"@)] + element("span"@, value) + seq![XmlItemView::End("p"@)]
}

fn write_paragraph(out: &mut XmlOutput, value: &str)
    ensures
        final(out)@ == old(out)@ + paragraph(value@),
{
    let ghost before = out@;
    out.start("p");
    out.element("span", value);
    out.end("p");
    assert(out@ =~= before + paragraph(value@));
}

/// The events of an element that holds one paragraph.
pub open spec fn rich_text(name: Seq<char>, value: Seq<char>) -> Seq<XmlItemView> {
    seq![start_tag(name)] + paragraph(value) + seq![XmlItemView::End(name)]
}

pub fn write_rich_text(out: &mut XmlOutput, name: &str, value: &str)
    ensures
        final(out)@ == old(out)@ + rich_text(name@, value@),
{
    let ghost before = out@;
    out.start(name);
    write_paragraph(out, value);
    out.end(name);
    assert(out@ =~= before + rich_text(name@, value@));
}

/// The paragraphs of the first `n` lines: one for each line that is not blank.
pub open spec fn paragraphs(all: Seq<Seq<char>>, n: nat) -> Seq<XmlItemView>
    decreases n,
{
    if n == 0 {
        seq![]
    } else if trim(all[n - 1]).len() == 0 {
        paragraphs(all, (n - 1) as nat)
    } else {
        paragraphs(all, (n - 1) as nat) + paragraph(trim(all[n - 1]))
    }
}

/// Whether all lines are blank.
pub open spec fn blank(all: Seq<Seq<char>>) -> bool {
    forall|i: int| 0 <= i < all.len() ==> trim(#[trigger] all[i]).len() == 0
}

/// The events of an element that holds a text, one paragraph for each line; an empty
/// paragraph for a blank text.
pub open spec fn text_block(name: Seq<char>, value: Seq<char>) -> Seq<XmlItemView> {
    let all = lines(value);
    let body = if blank(all) {
        paragraph(seq![])
    } else {
        paragraphs(all, all.len())
    };
    seq![start_tag(name)] + body + seq![XmlItemView::End(name)]
}

pub fn write_text_block(out: &mut XmlOutput, name: &str, value: &str)
    ensures
        final(out)@ == old(out)@ + text_block(name@, value@),
{
    let ghost before = out@;
    out.start(name);
    let found = split_lines(value);
    let ghost all = lines(value@);
    assert(found@.len() == texts(found@).len());
    let ghost opened = out@;
    let mut none = true;
    let mut i: usize = 0;
    assert(opened + paragraphs(all, 0) =~= opened);
    while i < found.len()
        invariant
            i <= found@.len(),
            all == texts(found@),
            none == forall|j: int| 0 <= j < i ==> trim(#[trigger] all[j]).len() == 0,
            none ==> paragraphs(all, i as nat) == Seq::<XmlItemView>::empty(),
            out@ == opened + paragraphs(all, i as nat),
        decreases found@.len() - i,
    {
        assert(all[i as int] == found@[i as int]@);
        let line = trimmed(found[i].as_str());
        let ghost here = out@;
        if !line.as_str().is_empty() {
            none = false;
            write_paragraph(out, line.as_str());
        }
        i = i + 1;
        assert(out@ =~= opened + paragraphs(all, i as nat));
    }
    if none {
        assert(out@ =~= opened);
        write_paragraph(out, "");
        proof {
            reveal_strlit("");
        }
        assert(""@ =~= Seq::<char>::empty());
    }
    out.end(name);
    assert(out@ =~= before + text_block(name@, value@));
}

/// How many headings and positions a tree has.
pub open spec fn tree_size(nodes: Seq<NodeView>) -> nat
    decreases nodes,
{
    if nodes.len() == 0 {
        0
    } else {
        tree_size(nodes.drop_last()) + 1 + tree_size(nodes.last().children)
            + nodes.last().positions.len()
    }
}

/// The size of a tree on top of a count, if it can be counted.
fn count_tree(nodes: &Vec<Node>, seen: u64) -> (r: Option<u64>)
    ensures
        r == (if seen + tree_size(node_views(nodes@)) <= u64::MAX {
            Some((seen + tree_size(node_views(nodes@))) as u64)
        } else {
            None
        }),
    decreases *nodes,
{
    let ghost all = node_views(nodes@);
    let mut count: u64 = seen;
    let mut i: usize = 0;
    assert(all.take(0) =~= seq![]);
    assert(all.take(all.len() as int) =~= all);
    while i < nodes.len()
        invariant
            i <= nodes@.len(),
            all == node_views(nodes@),
            all.len() == nodes@.len(),
            all.take(all.len() as int) == all,
            count == seen + tree_size(all.take(i as int)),
        decreases nodes@.len() - i,
    {
        let node = &nodes[i];
        assert(all[i as int] == node@);
        assert(all.take(i + 1).drop_last() =~= all.take(i as int));
        assert(decreases_to!(*nodes => nodes@[i as int].children));
        proof {
            lemma_tree_size_prefix(all, i + 1);
        }
        assert(node_views(node.children@) =~= node@.children);
        assert(node@.positions.len() == node.positions@.len());
        let below = match count_tree(&node.children, count) {
            Some(below) => below,
            None => {
                return None;
            },
        };
        let positions = node.positions.len() as u64;
        if below > u64::MAX - positions || below + positions == u64::MAX {
            return None;
        }
        count = below + positions + 1;
        i = i + 1;
    }
    Some(count)
}

/// Whether each heading and position of a tree can have a number of its own.
pub fn can_number(nodes: &Vec<Node>) -> (r: bool)
    ensures
        r == (tree_size(node_views(nodes@)) < u64::MAX),
{
    match count_tree(nodes, 0) {
        Some(count) => count < u64::MAX,
        None => false,
    }
}

/// An element for a number, if there is one.
pub open spec fn optional_number(name: Seq<char>, value: Option<Dec>, rounding: Option<nat>) -> Seq<
    XmlItemView,
> {
    match value {
        Some(d) => {
            let shown = match rounding {
                Some(places) => d.round_dp(places),
                None => d,
            };
            element(name, shown.normalize().plain())
        },
        None => seq![],
    }
}

/// The events of the unit of an item.
pub open spec fn unit_events(p: PositionView) -> Seq<XmlItemView> {
    match p.unit {
        Some(unit) => if trim(unit).len() > 0 {
            element("QU"@, unit)
        } else {
            seq![]
        },
        None => seq![],
    }
}

/// The events of the prices and quantities of an item.
pub open spec fn item_numbers(p: PositionView, style: Style) -> Seq<XmlItemView> {
    let unit = unit_events(p);
    match style {
        Style::Request => optional_number("Qty"@, p.quantity, None) + unit,
        Style::Priced => optional_number("Qty"@, p.quantity, Some(3)) + unit + optional_number(
            "UP"@,
            p.unit_price,
            Some(2),
        ) + optional_number("IT"@, p.total_price, Some(2)),
        Style::Offer => optional_number("UP"@, p.unit_price, Some(2)) + optional_number(
            "IT"@,
            p.total_price,
            Some(2),
        ),
    }
}

/// The events of the texts of an item.
pub open spec fn item_texts(p: PositionView) -> Seq<XmlItemView> {
    let detail = if trim(p.long_text).len() > 0 {
        seq![start_tag("DetailTxt"@)] + text_block("Text"@, p.long_text) + seq![
            XmlItemView::End("DetailTxt"@),
        ]
    } else {
        seq![]
    };
    seq![start_tag("Description"@), start_tag("CompleteText"@)] + detail + seq![
        start_tag("OutlineText"@),
        start_tag("OutlTxt"@),
    ] + text_block("TextOutlTxt"@, p.short_text) + seq![
        XmlItemView::End("OutlTxt"@),
        XmlItemView::End("OutlineText"@),
        XmlItemView::End("CompleteText"@),
        XmlItemView::End("Description"@),
    ]
}

/// The events of the description of an item. An offer has none.
pub open spec fn item_description(p: PositionView, style: Style) -> Seq<XmlItemView> {
    match style {
        Style::Offer => seq![],
        _ => item_texts(p),
    }
}

/// The events of an item.
pub open spec fn item_events(p: PositionView, id: nat, style: Style) -> Seq<XmlItemView> {
    seq![numbered_tag("Item"@, id, p.oz)] + item_numbers(p, style) + item_description(p, style)
        + seq![XmlItemView::End("Item"@)]
}

/// The events of the first `n` items, numbered behind `id`.
pub open spec fn items_events(all: Seq<PositionView>, n: nat, id: nat, style: Style) -> Seq<
    XmlItemView,
>
    decreases n,
{
    if n == 0 {
        seq![]
    } else {
        items_events(all, (n - 1) as nat, id, style) + item_events(all[n - 1], id + n, style)
    }
}

/// The events of the item list of a heading.
pub open spec fn itemlist(all: Seq<PositionView>, id: nat, style: Style) -> Seq<XmlItemView> {
    if all.len() == 0 {
        seq![]
    } else {
        seq![start_tag("Itemlist"@)] + items_events(all, all.len(), id, style) + seq![
            XmlItemView::End("Itemlist"@),
        ]
    }
}

/// The title of a heading in a document.
pub open spec fn title_in(title: Seq<char>, style: Style) -> Seq<char> {
    match style {
        Style::Request => clean_title(title),
        Style::Priced | Style::Offer => trim(title),
    }
}

/// The events of a heading in front of what stands under it.
#[verifier::opaque]
pub open spec fn heading_opening(n: NodeView, id: nat, style: Style) -> Seq<XmlItemView> {
    seq![numbered_tag("BoQCtgy"@, id, n.oz)] + rich_text("LblTx"@, title_in(n.title, style)) + seq![
        start_tag("BoQBody"@),
    ]
}

/// The events of a heading behind the headings under it.
#[verifier::opaque]
pub open spec fn heading_closing(n: NodeView, id: nat, style: Style) -> Seq<XmlItemView> {
    itemlist(n.positions, id, style) + seq![
        XmlItemView::End("BoQBody"@),
        XmlItemView::End("BoQCtgy"@),
    ]
}

/// The events of the headings of a tree, numbered behind `id`: under each heading the
/// headings, then the items.
pub open spec fn tree_events(nodes: Seq<NodeView>, id: nat, style: Style) -> Seq<XmlItemView>
    decreases nodes,
{
    if nodes.len() == 0 {
        seq![]
    } else {
        let n = nodes.last();
        let at = id + tree_size(nodes.drop_last()) + 1;
        tree_events(nodes.drop_last(), id, style) + heading_opening(n, at, style) + tree_events(
            n.children,
            at,
            style,
        ) + heading_closing(n, at + tree_size(n.children), style)
    }
}

fn open_heading(out: &mut XmlOutput, node: &Node, ids: &mut IdGenerator, style: Style)
    requires
        old(ids).0 < u64::MAX,
    ensures
        final(ids).0 == old(ids).0 + 1,
        final(out)@ == old(out)@ + heading_opening(node@, (old(ids).0 + 1) as nat, style),
{
    broadcast use group_model_views;
    reveal(heading_opening);
    let ghost before = out@;
    numbered_start(out, "BoQCtgy", ids, node.oz.as_str());
    let title = match style {
        Style::Request => strip_trailing_totals(node.title.as_str()),
        Style::Priced | Style::Offer => trimmed(node.title.as_str()),
    };
    write_rich_text(out, "LblTx", title.as_str());
    out.start("BoQBody");
    assert(out@ =~= before + heading_opening(node@, ids.0 as nat, style));
}

fn close_heading(out: &mut XmlOutput, node: &Node, ids: &mut IdGenerator, style: Style)
    requires
        old(ids).0 + node@.positions.len() <= u64::MAX,
    ensures
        final(ids).0 == old(ids).0 + node@.positions.len(),
        final(out)@ == old(out)@ + heading_closing(node@, old(ids).0 as nat, style),
{
    broadcast use group_model_views;
    let ghost before = out@;
    let ghost id = ids.0 as nat;
    reveal(heading_closing);
    write_itemlist(out, &node.positions, ids, style);
    out.end("BoQBody");
    out.end("BoQCtgy");
    assert(out@ =~= before + heading_closing(node@, id, style));
}

fn write_number(out: &mut XmlOutput, name: &str, value: Option<crate::decimal::Decimal>, rounding: Option<u32>)
    ensures
        final(out)@ == old(out)@ + optional_number(
            name@,
            crate::decimal::dec(value),
            (match rounding {
                Some(n) => Some(n as nat),
                None => None,
            }),
        ),
{
    let ghost before = out@;
    match value {
        Some(d) => {
            let shown = match rounding {
                Some(places) => d.round_dp(places),
                None => d,
            };
            let text = shown.normalize().plain();
            out.element(name, text.as_str());
        },
        None => {
            assert(before + Seq::<XmlItemView>::empty() =~= before);
        },
    }
}

fn write_unit(out: &mut XmlOutput, p: &Position)
    ensures
        final(out)@ == old(out)@ + unit_events(p@),
{
    let ghost before = out@;
    if let Some(unit) = &p.unit {
        if !trimmed(unit.as_str()).as_str().is_empty() {
            out.element("QU", unit.as_str());
        }
    }
    assert(out@ =~= before + unit_events(p@));
}

fn write_numbers(out: &mut XmlOutput, p: &Position, style: Style)
    ensures
        final(out)@ == old(out)@ + item_numbers(p@, style),
{
    let ghost before = out@;
    match style {
        Style::Request => {
            write_number(out, "Qty", p.quantity, None);
            write_unit(out, p);
        },
        Style::Priced => {
            write_number(out, "Qty", p.quantity, Some(3));
            write_unit(out, p);
            write_number(out, "UP", p.unit_price, Some(2));
            write_number(out, "IT", p.total_price, Some(2));
        },
        Style::Offer => {
            write_number(out, "UP", p.unit_price, Some(2));
            write_number(out, "IT", p.total_price, Some(2));
        },
    }
    assert(out@ =~= before + item_numbers(p@, style));
}

fn write_texts(out: &mut XmlOutput, p: &Position)
    ensures
        final(out)@ == old(out)@ + item_texts(p@),
{
    let ghost before = out@;
    out.start("Description");
    out.start("CompleteText");
    if !trimmed(p.long_text.as_str()).as_str().is_empty() {
        out.start("DetailTxt");
        write_text_block(out, "Text", p.long_text.as_str());
        out.end("DetailTxt");
    }
    out.start("OutlineText");
    out.start("OutlTxt");
    write_text_block(out, "TextOutlTxt", p.short_text.as_str());
    out.end("OutlTxt");
    out.end("OutlineText");
    out.end("CompleteText");
    out.end("Description");
    assert(out@ =~= before + item_texts(p@));
}

pub fn write_item(out: &mut XmlOutput, p: &Position, ids: &mut IdGenerator, style: Style)
    requires
        old(ids).0 < u64::MAX,
    ensures
        final(ids).0 == old(ids).0 + 1,
        final(out)@ == old(out)@ + item_events(p@, (old(ids).0 + 1) as nat, style),
{
    let ghost before = out@;
    numbered_start(out, "Item", ids, p.oz.as_str());
    write_numbers(out, p, style);
    match style {
        Style::Offer => {},
        _ => write_texts(out, p),
    }
    out.end("Item");
    assert(out@ =~= before + item_events(p@, ids.0 as nat, style));
}

fn write_itemlist(out: &mut XmlOutput, positions: &Vec<Position>, ids: &mut IdGenerator, style: Style)
    requires
        old(ids).0 + positions@.len() <= u64::MAX,
    ensures
        final(ids).0 == old(ids).0 + positions@.len(),
        final(out)@ == old(out)@ + itemlist(position_views(positions@), old(ids).0 as nat, style),
{
    let ghost before = out@;
    let ghost all = position_views(positions@);
    let ghost id = ids.0 as nat;
    if positions.len() > 0 {
        out.start("Itemlist");
        let ghost opened = out@;
        let mut i: usize = 0;
        assert(opened + items_events(all, 0, id, style) =~= opened);
        while i < positions.len()
            invariant
                i <= positions@.len(),
                all == position_views(positions@),
                id + positions@.len() <= u64::MAX,
                ids.0 == id + i,
                out@ == opened + items_events(all, i as nat, id, style),
            decreases positions@.len() - i,
        {
            assert(all[i as int] == positions@[i as int]@);
            write_item(out, &positions[i], ids, style);
            i = i + 1;
            assert(out@ =~= opened + items_events(all, i as nat, id, style));
        }
        out.end("Itemlist");
    }
    assert(out@ =~= before + itemlist(all, id, style));
}

proof fn lemma_tree_size_prefix(nodes: Seq<NodeView>, i: int)
    requires
        0 <= i <= nodes.len(),
    ensures
        tree_size(nodes.take(i)) <= tree_size(nodes),
    decreases nodes.len() - i,
{
    if i < nodes.len() {
        lemma_tree_size_prefix(nodes, i + 1);
        assert(nodes.take(i + 1).drop_last() =~= nodes.take(i));
    } else {
        assert(nodes.take(i) =~= nodes);
    }
}

/// Writes the headings of a tree.
pub fn write_categories(out: &mut XmlOutput, nodes: &Vec<Node>, ids: &mut IdGenerator, style: Style)
    requires
        old(ids).0 + tree_size(node_views(nodes@)) <= u64::MAX,
    ensures
        final(ids).0 == old(ids).0 + tree_size(node_views(nodes@)),
        final(out)@ == old(out)@ + tree_events(node_views(nodes@), old(ids).0 as nat, style),
    decreases nodes,
{
    broadcast use group_model_views;
    let ghost before = out@;
    let ghost all = node_views(nodes@);
    let ghost id = ids.0 as nat;
    let mut i: usize = 0;
    assert(before + tree_events(all.take(0), id, style) =~= before);
    assert(tree_size(all.take(0)) == 0);
    while i < nodes.len()
        invariant
            i <= nodes@.len(),
            all == node_views(nodes@),
            id + tree_size(all) <= u64::MAX,
            ids.0 == id + tree_size(all.take(i as int)),
            out@ == before + tree_events(all.take(i as int), id, style),
        decreases nodes@.len() - i,
    {
        broadcast use group_model_views;
        let node = &nodes[i];
        let ghost n = node@;
        let ghost here = out@;
        let ghost at = (ids.0 + 1) as nat;
        proof {
            assert(all.take(i + 1).drop_last() =~= all.take(i as int));
            assert(all.take(i + 1).last() == n);
            lemma_tree_size_prefix(all, i + 1);
        }
        open_heading(out, node, ids, style);
        assert(decreases_to!(*nodes => nodes@[i as int].children));
        write_categories(out, &node.children, ids, style);
        close_heading(out, node, ids, style);
        assert(out@ =~= before + tree_events(all.take(i + 1), id, style));
        i = i + 1;
    }
    assert(all.take(i as int) =~= all);
}

/// The number under which a project goes.
pub open spec fn project_number_of(boq: BoqView) -> Seq<char> {
    or_else(boq.project, "01"@)
}

/// The name under which a project goes.
pub open spec fn project_label_of(boq: BoqView) -> Seq<char> {
    or_else(boq.project, boq.source)
}

pub fn project_number(boq: &BillOfQuantities) -> (r: String)
    ensures
        r@ == project_number_of(boq@),
{
    text_or(boq.project.as_str(), "01")
}

pub fn project_label(boq: &BillOfQuantities) -> (r: String)
    ensures
        r@ == project_label_of(boq@),
{
    text_or(boq.project.as_str(), boq.source.as_str())
}

/// The name of a currency.
pub open spec fn currency_name(currency: Seq<char>) -> Seq<char> {
    if currency == "EUR"@ {
        "Euro"@
    } else {
        currency
    }
}

pub fn currency_label(currency: &str) -> (r: String)
    ensures
        r@ == currency_name(currency@),
{
    if same(currency, "EUR") {
        "Euro".to_owned()
    } else {
        currency.to_owned()
    }
}

/// The events on the document itself.
#[verifier::opaque]
pub open spec fn info_events(moment: MomentView) -> Seq<XmlItemView> {
    seq![start_tag("GAEBInfo"@)] + element("Version"@, "3.3"@) + element("VersDate"@, "2021-05"@)
        + element("Date"@, moment.iso_date()) + element("Time"@, moment.iso_time()) + element(
        "ProgSystem"@,
        "gaeb-toolkit"@,
    ) + element("ProgName"@, "gaeb-toolkit"@) + element("Certific"@, "not certified"@) + seq![
        XmlItemView::End("GAEBInfo"@),
    ]
}

fn write_gaeb_info(out: &mut XmlOutput, moment: &Moment)
    ensures
        final(out)@ == old(out)@ + info_events(moment@),
{
    reveal(info_events);
    let ghost before = out@;
    let date = moment.iso_date();
    let time = moment.iso_time();
    out.start("GAEBInfo");
    out.element("Version", "3.3");
    out.element("VersDate", "2021-05");
    out.element("Date", date.as_str());
    out.element("Time", time.as_str());
    out.element("ProgSystem", "gaeb-toolkit");
    out.element("ProgName", "gaeb-toolkit");
    out.element("Certific", "not certified");
    out.end("GAEBInfo");
    assert(out@ =~= before + info_events(moment@));
}

/// The events on the project.
#[verifier::opaque]
pub open spec fn project_events(boq: BoqView) -> Seq<XmlItemView> {
    seq![start_tag("PrjInfo"@)] + element("NamePrj"@, project_number_of(boq)) + element(
        "LblPrj"@,
        project_label_of(boq),
    ) + element("Cur"@, boq.currency) + element("CurLbl"@, currency_name(boq.currency)) + seq![
        XmlItemView::End("PrjInfo"@),
    ]
}

fn write_project_info(out: &mut XmlOutput, boq: &BillOfQuantities)
    ensures
        final(out)@ == old(out)@ + project_events(boq@),
{
    reveal(project_events);
    let ghost before = out@;
    let n = project_number(boq);
    let label = project_label(boq);
    let currency = currency_label(boq.currency.as_str());
    out.start("PrjInfo");
    out.element("NamePrj", n.as_str());
    out.element("LblPrj", label.as_str());
    out.element("Cur", boq.currency.as_str());
    out.element("CurLbl", currency.as_str());
    out.end("PrjInfo");
    assert(out@ =~= before + project_events(boq@));
}

/// The events on the award: the exchange phase, the currency and the preliminary
/// remarks.
#[verifier::opaque]
pub open spec fn award_events(boq: BoqView, phase: Seq<char>) -> Seq<XmlItemView> {
    let remarks = if trim(boq.preamble).len() > 0 {
        seq![start_tag("AddText"@), start_tag("OutlineAddText"@)] + element(
            "span"@,
            "Vorbemerkungen"@,
        ) + seq![XmlItemView::End("OutlineAddText"@)] + text_block("DetailAddText"@, boq.preamble)
            + seq![XmlItemView::End("AddText"@)]
    } else {
        seq![]
    };
    seq![start_tag("Award"@)] + element("DP"@, phase) + seq![start_tag("AwardInfo"@)] + element(
        "Cur"@,
        boq.currency,
    ) + element("CurLbl"@, currency_name(boq.currency)) + seq![XmlItemView::End("AwardInfo"@)]
        + remarks
}

fn write_award(out: &mut XmlOutput, boq: &BillOfQuantities, phase: &str)
    ensures
        final(out)@ == old(out)@ + award_events(boq@, phase@),
{
    reveal(award_events);
    let ghost before = out@;
    let currency = currency_label(boq.currency.as_str());
    out.start("Award");
    out.element("DP", phase);
    out.start("AwardInfo");
    out.element("Cur", boq.currency.as_str());
    out.element("CurLbl", currency.as_str());
    out.end("AwardInfo");
    if !trimmed(boq.preamble.as_str()).as_str().is_empty() {
        out.start("AddText");
        out.start("OutlineAddText");
        out.element("span", "Vorbemerkungen");
        out.end("OutlineAddText");
        write_text_block(out, "DetailAddText", boq.preamble.as_str());
        out.end("AddText");
    }
    assert(out@ =~= before + award_events(boq@, phase@));
}

/// The events on one level of the bill.
pub open spec fn level_events(label: Seq<char>) -> Seq<XmlItemView> {
    seq![start_tag("BoQBkdn"@)] + element("Type"@, "BoQLevel"@) + element("LblBoQBkdn"@, label)
        + element("Length"@, "2"@) + element("Num"@, "Yes"@) + seq![XmlItemView::End("BoQBkdn"@)]
}

fn write_level(out: &mut XmlOutput, label: &str)
    ensures
        final(out)@ == old(out)@ + level_events(label@),
{
    let ghost before = out@;
    out.start("BoQBkdn");
    out.element("Type", "BoQLevel");
    out.element("LblBoQBkdn", label);
    out.element("Length", "2");
    out.element("Num", "Yes");
    out.end("BoQBkdn");
    assert(out@ =~= before + level_events(label@));
}

/// The events on the bill: its name and how its ordinal numbers are put together.
#[verifier::opaque]
pub open spec fn boq_info_events(boq: BoqView) -> Seq<XmlItemView> {
    seq![start_tag("BoQInfo"@)] + element("Name"@, "01"@) + element(
        "LblBoQ"@,
        project_label_of(boq),
    ) + element("OutlCompl"@, "AllTxt"@) + level_events("Bereich"@) + level_events("Titel"@)
        + level_events("Untertitel"@) + seq![start_tag("BoQBkdn"@)] + element("Type"@, "Item"@)
        + element("Length"@, "3"@) + element("Num"@, "Yes"@) + seq![
        XmlItemView::End("BoQBkdn"@),
        XmlItemView::End("BoQInfo"@),
    ]
}

fn write_boq_info(out: &mut XmlOutput, boq: &BillOfQuantities)
    ensures
        final(out)@ == old(out)@ + boq_info_events(boq@),
{
    reveal(boq_info_events);
    let ghost before = out@;
    let label = project_label(boq);
    out.start("BoQInfo");
    out.element("Name", "01");
    out.element("LblBoQ", label.as_str());
    out.element("OutlCompl", "AllTxt");
    write_level(out, "Bereich");
    write_level(out, "Titel");
    write_level(out, "Untertitel");
    out.start("BoQBkdn");
    out.element("Type", "Item");
    out.element("Length", "3");
    out.element("Num", "Yes");
    out.end("BoQBkdn");
    out.end("BoQInfo");
    assert(out@ =~= before + boq_info_events(boq@));
}

/// The events of a whole document.
pub open spec fn document_events(
    boq: BoqView,
    moment: MomentView,
    namespace: Seq<char>,
    phase: Seq<char>,
    style: Style,
) -> Seq<XmlItemView> {
    seq![
        XmlItemView::Declaration,
        XmlItemView::Start("GAEB"@, seq![("xmlns"@, namespace)]),
    ] + info_events(moment) + project_events(boq) + award_events(boq, phase) + seq![
        XmlItemView::Start("BoQ"@, seq![("ID"@, id_text(1))]),
    ] + boq_info_events(boq) + seq![start_tag("BoQBody"@)] + tree_events(boq.roots, 1, style)
        + seq![
        XmlItemView::End("BoQBody"@),
        XmlItemView::End("BoQ"@),
        XmlItemView::End("Award"@),
        XmlItemView::End("GAEB"@),
    ]
}

fn start_with(out: &mut XmlOutput, name: &str, key: &str, value: &str)
    ensures
        final(out)@ == old(out)@.push(XmlItemView::Start(name@, seq![(key@, value@)])),
{
    let attributes = vec![(key.to_owned(), value.to_owned())];
    assert(pairs(attributes@) =~= seq![(key@, value@)]);
    out.put(XmlItem::Start(name.to_owned(), attributes));
}

/// Writes a whole document.
pub fn write_document(
    boq: &BillOfQuantities,
    moment: &Moment,
    namespace: &str,
    phase: &str,
    style: Style,
) -> (r: Vec<u8>)
    requires
        tree_size(boq@.roots) < u64::MAX,
    ensures
        r@ == xml_bytes(document_events(boq@, moment@, namespace@, phase@, style)),
        read_as_bill(r@, boq@, phase@, style),
{
    let mut out = XmlOutput::new();
    out.put(XmlItem::Declaration);
    start_with(&mut out, "GAEB", "xmlns", namespace);
    write_gaeb_info(&mut out, moment);
    write_project_info(&mut out, boq);
    write_award(&mut out, boq, phase);
    let mut ids = IdGenerator(0);
    let id = ids.next();
    start_with(&mut out, "BoQ", "ID", id.as_str());
    write_boq_info(&mut out, boq);
    out.start("BoQBody");
    write_categories(&mut out, &boq.roots, &mut ids, style);
    out.end("BoQBody");
    out.end("BoQ");
    out.end("Award");
    out.end("GAEB");
    assert(out@ =~= document_events(boq@, moment@, namespace@, phase@, style));
    proof {
        lemma_sound_document(boq@, moment@, namespace@, phase@, style);
    }
    let bytes = out.finish();
    proof {
        if comes_back(boq@) {
            assert forall|source: Seq<char>| #[trigger]
                gaeb_xml(source, bytes@) == Ok::<DocumentView, Seq<char>>(
                    document_back(boq@, source, phase@, style),
                ) by {
                law_document_reads_back(source, boq@, moment@, namespace@, phase@, style);
            }
        }
    }
    bytes
}

} // verus!
