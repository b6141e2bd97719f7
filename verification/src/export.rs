//! A bill as a plain XML document with all that was read.

use crate::decimal::{dec, Dec, Decimal};
use crate::model::{
    group_model_views, node_views, opt_text, position_views, BillOfQuantities, BoqView, Node,
    NodeView, Position, PositionView,
};
use crate::text::{digits, number, texts};
use crate::xml::{element, pairs, start_tag, xml_bytes, XmlItem, XmlItemView, XmlOutput};
use vstd::prelude::*;

verus! {

/// A page number, or nothing.
pub open spec fn page_text(page: Option<usize>) -> Seq<char> {
    match page {
        Some(n) => digits(n as nat),
        None => seq![],
    }
}

/// A number, or nothing.
pub open spec fn value_text(value: Option<Dec>) -> Seq<char> {
    match value {
        Some(d) => d.plain(),
        None => seq![],
    }
}

/// What a flag is in an attribute.
pub open spec fn flag_text(flag: bool) -> Seq<char> {
    if flag {
        "true"@
    } else {
        "false"@
    }
}

pub open spec fn unit_text(unit: Option<Seq<char>>) -> Seq<char> {
    match unit {
        Some(s) => s,
        None => seq![],
    }
}

/// The events of a position.
pub open spec fn position_events(p: PositionView) -> Seq<XmlItemView> {
    seq![
        XmlItemView::Start(
            "Position"@,
            seq![
                ("oz"@, p.oz),
                ("seiteVon"@, page_text(p.page_from)),
                ("seiteBis"@, page_text(p.page_to)),
                ("eventual"@, flag_text(p.provisional)),
                ("nurEinheitspreis"@, flag_text(p.price_only)),
            ],
        ),
    ] + element("Kurztext"@, p.short_text) + element("Langtext"@, p.long_text) + seq![
        XmlItemView::Start("Menge"@, seq![("einheit"@, unit_text(p.unit))]),
        XmlItemView::Text(value_text(p.quantity)),
        XmlItemView::End("Menge"@),
        XmlItemView::Start("Preise"@, seq![("waehrung"@, "EUR"@)]),
    ] + element("Einheitspreis"@, value_text(p.unit_price)) + element(
        "Gesamtbetrag"@,
        value_text(p.total_price),
    ) + seq![XmlItemView::End("Preise"@), XmlItemView::End("Position"@)]
}

/// The events of positions.
pub open spec fn positions_events(v: Seq<PositionView>) -> Seq<XmlItemView>
    decreases v.len(),
{
    if v.len() == 0 {
        seq![]
    } else {
        positions_events(v.drop_last()) + position_events(v.last())
    }
}

/// The name of the element for a heading.
pub open spec fn heading_name(level: nat) -> Seq<char> {
    if level == 1 {
        "Bereich"@
    } else if level == 2 {
        "Titel"@
    } else if level == 3 {
        "Untertitel"@
    } else {
        "Gliederung"@
    }
}

/// The events of a tree: for each heading its positions, and then what stands below it.
pub open spec fn tree_events(nodes: Seq<NodeView>) -> Seq<XmlItemView>
    decreases nodes,
{
    if nodes.len() == 0 {
        seq![]
    } else {
        let node = nodes.last();
        tree_events(nodes.drop_last()) + (seq![
            XmlItemView::Start(
                heading_name(node.level),
                seq![("oz"@, node.oz), ("seite"@, page_text(node.page))],
            ),
        ] + element("Bezeichnung"@, node.title) + positions_events(node.positions) + tree_events(
            node.children,
        )).push(XmlItemView::End(heading_name(node.level)))
    }
}

/// The events of warnings.
pub open spec fn warning_events(w: Seq<Seq<char>>) -> Seq<XmlItemView>
    decreases w.len(),
{
    if w.len() == 0 {
        seq![]
    } else {
        warning_events(w.drop_last()) + element("Warnung"@, w.last())
    }
}

/// The events of a whole bill.
pub open spec fn master_events(boq: BoqView) -> Seq<XmlItemView> {
    seq![
        XmlItemView::Declaration,
        XmlItemView::Start(
            "Leistungsverzeichnis"@,
            seq![("version"@, "0.1"@), ("currency"@, boq.currency)],
        ),
        start_tag("Metadaten"@),
    ] + element("Quelldatei"@, boq.source) + element("Projekt"@, boq.project) + element(
        "Auftraggeber"@,
        boq.client,
    ) + element("Bieter"@, boq.bidder) + seq![XmlItemView::End("Metadaten"@)] + (
    if boq.preamble.len() == 0 {
        seq![]
    } else {
        element("Vorbemerkungen"@, boq.preamble)
    }) + seq![start_tag("Hierarchie"@)] + tree_events(boq.roots) + seq![
        XmlItemView::End("Hierarchie"@),
    ] + (if boq.warnings.len() == 0 {
        seq![]
    } else {
        seq![start_tag("Validierung"@)] + warning_events(boq.warnings) + seq![
            XmlItemView::End("Validierung"@),
        ]
    }) + seq![XmlItemView::End("Leistungsverzeichnis"@)]
}

fn page_of(page: Option<usize>) -> (r: String)
    ensures
        r@ == page_text(page),
{
    match page {
        Some(n) => number(n as u64),
        None => String::new(),
    }
}

fn value_of(value: Option<Decimal>) -> (r: String)
    ensures
        r@ == value_text(dec(value)),
{
    match value {
        Some(d) => d.plain(),
        None => String::new(),
    }
}

fn flag_of(flag: bool) -> (r: String)
    ensures
        r@ == flag_text(flag),
{
    if flag {
        "true".to_owned()
    } else {
        "false".to_owned()
    }
}

fn unit_of(unit: &Option<String>) -> (r: String)
    ensures
        r@ == unit_text(opt_text(*unit)),
{
    match unit {
        Some(s) => s.clone(),
        None => String::new(),
    }
}

fn write_position(out: &mut XmlOutput, p: &Position)
    ensures
        final(out)@ == old(out)@ + position_events(p@),
{
    let ghost before = out@;
    let mut attributes: Vec<(String, String)> = Vec::new();
    attributes.push(("oz".to_owned(), p.oz.clone()));
    attributes.push(("seiteVon".to_owned(), page_of(p.page_from)));
    attributes.push(("seiteBis".to_owned(), page_of(p.page_to)));
    attributes.push(("eventual".to_owned(), flag_of(p.provisional)));
    attributes.push(("nurEinheitspreis".to_owned(), flag_of(p.price_only)));
    assert(pairs(attributes@) =~= seq![
        ("oz"@, p@.oz),
        ("seiteVon"@, page_text(p@.page_from)),
        ("seiteBis"@, page_text(p@.page_to)),
        ("eventual"@, flag_text(p@.provisional)),
        ("nurEinheitspreis"@, flag_text(p@.price_only)),
    ]);
    out.put(XmlItem::Start("Position".to_owned(), attributes));
    out.element("Kurztext", p.short_text.as_str());
    out.element("Langtext", p.long_text.as_str());
    let mut unit: Vec<(String, String)> = Vec::new();
    unit.push(("einheit".to_owned(), unit_of(&p.unit)));
    assert(pairs(unit@) =~= seq![("einheit"@, unit_text(p@.unit))]);
    out.put(XmlItem::Start("Menge".to_owned(), unit));
    out.put(XmlItem::Text(value_of(p.quantity)));
    out.end("Menge");
    let mut currency: Vec<(String, String)> = Vec::new();
    currency.push(("waehrung".to_owned(), "EUR".to_owned()));
    assert(pairs(currency@) =~= seq![("waehrung"@, "EUR"@)]);
    out.put(XmlItem::Start("Preise".to_owned(), currency));
    out.element("Einheitspreis", value_of(p.unit_price).as_str());
    out.element("Gesamtbetrag", value_of(p.total_price).as_str());
    out.end("Preise");
    out.end("Position");
    assert(out@ =~= before + position_events(p@));
}

fn write_positions(out: &mut XmlOutput, v: &Vec<Position>)
    ensures
        final(out)@ == old(out)@ + positions_events(position_views(v@)),
{
    let ghost start = out@;
    let ghost all = position_views(v@);
    let mut i: usize = 0;
    assert(start + positions_events(all.take(0)) =~= start);
    while i < v.len()
        invariant
            i <= v@.len(),
            all == position_views(v@),
            out@ == start + positions_events(all.take(i as int)),
        decreases v@.len() - i,
    {
        assert(all.take(i + 1).drop_last() =~= all.take(i as int));
        assert(all.take(i + 1).last() == v@[i as int]@);
        let ghost before = out@;
        write_position(out, &v[i]);
        assert(out@ =~= start + positions_events(all.take(i + 1)));
        i = i + 1;
    }
    assert(all.take(v@.len() as int) =~= all);
}

fn heading_element(level: usize) -> (r: String)
    ensures
        r@ == heading_name(level as nat),
{
    match level {
        1 => "Bereich".to_owned(),
        2 => "Titel".to_owned(),
        3 => "Untertitel".to_owned(),
        _ => "Gliederung".to_owned(),
    }
}

fn write_nodes(out: &mut XmlOutput, nodes: &Vec<Node>)
    ensures
        final(out)@ == old(out)@ + tree_events(node_views(nodes@)),
    decreases *nodes,
{
    broadcast use group_model_views;
    let ghost start = out@;
    let ghost all = node_views(nodes@);
    let mut i: usize = 0;
    assert(start + tree_events(all.take(0)) =~= start);
    while i < nodes.len()
        invariant
            i <= nodes@.len(),
            all == node_views(nodes@),
            out@ == start + tree_events(all.take(i as int)),
        decreases nodes@.len() - i,
    {
        broadcast use group_model_views;
        assert(all.take(i + 1).drop_last() =~= all.take(i as int));
        assert(all.take(i + 1).last() == nodes@[i as int]@);
        let ghost node = nodes@[i as int]@;
        let name = heading_element(nodes[i].level);
        let mut attributes: Vec<(String, String)> = Vec::new();
        attributes.push(("oz".to_owned(), nodes[i].oz.clone()));
        attributes.push(("seite".to_owned(), page_of(nodes[i].page)));
        assert(pairs(attributes@) =~= seq![("oz"@, node.oz), ("seite"@, page_text(node.page))]);
        out.put(XmlItem::Start(name.clone(), attributes));
        out.element("Bezeichnung", nodes[i].title.as_str());
        write_positions(out, &nodes[i].positions);
        assert(decreases_to!(*nodes => nodes@[i as int].children));
        write_nodes(out, &nodes[i].children);
        out.end(name.as_str());
        assert(out@ =~= start + tree_events(all.take(i + 1)));
        i = i + 1;
    }
    assert(all.take(nodes@.len() as int) =~= all);
}

fn write_warnings(out: &mut XmlOutput, warnings: &Vec<String>)
    ensures
        final(out)@ == old(out)@ + warning_events(texts(warnings@)),
{
    let ghost start = out@;
    let ghost all = texts(warnings@);
    let mut i: usize = 0;
    assert(start + warning_events(all.take(0)) =~= start);
    while i < warnings.len()
        invariant
            i <= warnings@.len(),
            all == texts(warnings@),
            out@ == start + warning_events(all.take(i as int)),
        decreases warnings@.len() - i,
    {
        assert(all.take(i + 1).drop_last() =~= all.take(i as int));
        assert(all.take(i + 1).last() == warnings@[i as int]@);
        out.element("Warnung", warnings[i].as_str());
        assert(out@ =~= start + warning_events(all.take(i + 1)));
        i = i + 1;
    }
    assert(all.take(warnings@.len() as int) =~= all);
}

/// The bytes of the plain XML document of a bill.
pub fn write_master_xml(boq: &BillOfQuantities) -> (r: Vec<u8>)
    ensures
        r@ == xml_bytes(master_events(boq@)),
{
    let mut out = XmlOutput::new();
    out.put(XmlItem::Declaration);
    let mut attributes: Vec<(String, String)> = Vec::new();
    attributes.push(("version".to_owned(), "0.1".to_owned()));
    attributes.push(("currency".to_owned(), boq.currency.clone()));
    assert(pairs(attributes@) =~= seq![("version"@, "0.1"@), ("currency"@, boq@.currency)]);
    out.put(XmlItem::Start("Leistungsverzeichnis".to_owned(), attributes));
    out.start("Metadaten");
    out.element("Quelldatei", boq.source.as_str());
    out.element("Projekt", boq.project.as_str());
    out.element("Auftraggeber", boq.client.as_str());
    out.element("Bieter", boq.bidder.as_str());
    out.end("Metadaten");
    if !boq.preamble.as_str().is_empty() {
        out.element("Vorbemerkungen", boq.preamble.as_str());
    }
    out.start("Hierarchie");
    write_nodes(&mut out, &boq.roots);
    out.end("Hierarchie");
    assert(boq.warnings@.len() == texts(boq.warnings@).len());
    if boq.warnings.len() > 0 {
        out.start("Validierung");
        write_warnings(&mut out, &boq.warnings);
        out.end("Validierung");
    }
    out.end("Leistungsverzeichnis");
    assert(out@ =~= master_events(boq@));
    out.finish()
}

} // verus!
