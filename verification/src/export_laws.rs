//! What the plain XML document of a bill says when it is read back.

use crate::export::{
    heading_name, master_events, page_text, position_events, positions_events, tree_events,
    value_text, warning_events,
};
use crate::model::{BoqView, NodeView, PositionView};
use crate::text::digits;
use crate::tree::positions_of;
use crate::xml::{element, start_tag, XmlItemView};
use vstd::prelude::*;

verus! {

/// A position as it stands in a document: the attributes of its element, the unit at its
/// quantity, and the texts of the elements in it by their names.
#[verifier::ext_equal]
pub struct ReadPosition {
    pub attributes: Seq<(Seq<char>, Seq<char>)>,
    pub quantity_attributes: Seq<(Seq<char>, Seq<char>)>,
    pub texts: Map<Seq<char>, Seq<char>>,
}

/// What has been read of a document: its positions, the element that was opened last,
/// whether it stands in a position, and outside of positions the texts with the names of
/// their elements and the tags that have attributes.
#[verifier::ext_equal]
pub struct ReadBill {
    pub positions: Seq<ReadPosition>,
    pub element: Seq<char>,
    pub inside: bool,
    pub others: Seq<(Seq<char>, Seq<char>)>,
    pub tags: Seq<(Seq<char>, Seq<(Seq<char>, Seq<char>)>)>,
}

/// Nothing has been read.
pub open spec fn unread() -> ReadBill {
    ReadBill { positions: seq![], element: seq![], inside: false, others: seq![], tags: seq![] }
}

impl ReadBill {
    /// One more event.
    pub open spec fn event(self, e: XmlItemView) -> ReadBill {
        match e {
            XmlItemView::Start(name, attributes) => if name == "Position"@ {
                ReadBill {
                    positions: self.positions.push(
                        ReadPosition {
                            attributes,
                            quantity_attributes: seq![],
                            texts: Map::empty(),
                        },
                    ),
                    element: name,
                    inside: true,
                    ..self
                }
            } else if self.inside && name == "Menge"@ {
                ReadBill {
                    positions: self.positions.drop_last().push(
                        ReadPosition { quantity_attributes: attributes, ..self.positions.last() },
                    ),
                    element: name,
                    ..self
                }
            } else if !self.inside && attributes.len() > 0 {
                ReadBill { element: name, tags: self.tags.push((name, attributes)), ..self }
            } else {
                ReadBill { element: name, ..self }
            },
            XmlItemView::Text(text) => if self.inside {
                ReadBill {
                    positions: self.positions.drop_last().push(
                        ReadPosition {
                            texts: self.positions.last().texts.insert(self.element, text),
                            ..self.positions.last()
                        },
                    ),
                    ..self
                }
            } else {
                ReadBill { others: self.others.push((self.element, text)), ..self }
            },
            XmlItemView::End(name) => ReadBill {
                inside: self.inside && name != "Position"@,
                ..self
            },
            _ => self,
        }
    }

    /// More events.
    pub open spec fn events(self, all: Seq<XmlItemView>) -> ReadBill
        decreases all.len(),
    {
        if all.len() == 0 {
            self
        } else {
            self.events(all.drop_last()).event(all.last())
        }
    }
}

proof fn lemma_events_concat(s: ReadBill, a: Seq<XmlItemView>, b: Seq<XmlItemView>)
    ensures
        s.events(a + b) == s.events(a).events(b),
    decreases b.len(),
{
    if b.len() == 0 {
        assert(a + b =~= a);
    } else {
        assert((a + b).drop_last() =~= a + b.drop_last());
        lemma_events_concat(s, a, b.drop_last());
    }
}

proof fn lemma_one_event(s: ReadBill, e: XmlItemView)
    ensures
        s.events(seq![e]) == s.event(e),
{
    assert(seq![e].drop_last() =~= Seq::<XmlItemView>::empty());
    assert(s.events(Seq::<XmlItemView>::empty()) == s);
}

proof fn lemma_element(s: ReadBill, name: Seq<char>, value: Seq<char>)
    requires
        name != "Position"@,
        name != "Menge"@,
    ensures
        s.events(element(name, value)) == s.event(start_tag(name)).event(
            XmlItemView::Text(value),
        ).event(XmlItemView::End(name)),
{
    let e = element(name, value);
    assert(e =~= seq![start_tag(name)] + seq![XmlItemView::Text(value)] + seq![
        XmlItemView::End(name),
    ]);
    lemma_events_concat(
        s,
        seq![start_tag(name)] + seq![XmlItemView::Text(value)],
        seq![XmlItemView::End(name)],
    );
    lemma_events_concat(s, seq![start_tag(name)], seq![XmlItemView::Text(value)]);
    lemma_one_event(s, start_tag(name));
    lemma_one_event(s.event(start_tag(name)), XmlItemView::Text(value));
    lemma_one_event(
        s.event(start_tag(name)).event(XmlItemView::Text(value)),
        XmlItemView::End(name),
    );
}

proof fn lemma_names()
    ensures
        "Position"@.len() == 8,
        "Menge"@.len() == 5,
        "Kurztext"@[0] == 'K',
        "Langtext"@[0] == 'L',
        "Position"@[0] == 'P',
        "Einheitspreis"@.len() == 13,
        "Gesamtbetrag"@.len() == 12,
        "Menge"@.len() == 5,
        "Preise"@.len() == 6,
        "Bezeichnung"@.len() == 11,
        "Warnung"@.len() == 7,
        "Bereich"@.len() == 7,
        "Titel"@[0] == 'T',
        "Titel"@.len() == 5,
        "Untertitel"@.len() == 10,
        "Gliederung"@.len() == 10,
        "Menge"@[0] == 'M',
        "Quelldatei"@.len() == 10,
        "Projekt"@.len() == 7,
        "Auftraggeber"@.len() == 12,
        "Bieter"@.len() == 6,
        "Vorbemerkungen"@.len() == 14,
        "Metadaten"@.len() == 9,
        "Hierarchie"@.len() == 10,
        "Validierung"@.len() == 11,
        "Leistungsverzeichnis"@.len() == 20,
{
    reveal_strlit("Position");
    reveal_strlit("Menge");
    reveal_strlit("Kurztext");
    reveal_strlit("Langtext");
    reveal_strlit("Einheitspreis");
    reveal_strlit("Gesamtbetrag");
    reveal_strlit("Preise");
    reveal_strlit("Bezeichnung");
    reveal_strlit("Warnung");
    reveal_strlit("Bereich");
    reveal_strlit("Titel");
    reveal_strlit("Untertitel");
    reveal_strlit("Gliederung");
    reveal_strlit("Quelldatei");
    reveal_strlit("Projekt");
    reveal_strlit("Auftraggeber");
    reveal_strlit("Bieter");
    reveal_strlit("Vorbemerkungen");
    reveal_strlit("Metadaten");
    reveal_strlit("Hierarchie");
    reveal_strlit("Validierung");
    reveal_strlit("Leistungsverzeichnis");
}

/// Whether what was read of a position is what the position says: its number, pages and
/// marks in the attributes, its texts, its quantity with the unit, and each price in the
/// element of its own, nothing where there is none.
pub open spec fn tells(read: ReadPosition, p: PositionView) -> bool {
    &&& read.attributes.contains(("oz"@, p.oz))
    &&& read.attributes.contains(
        (
            "seiteVon"@,
            if p.page_from is Some {
                digits(p.page_from->0 as nat)
            } else {
                seq![]
            },
        ),
    )
    &&& read.attributes.contains(
        (
            "seiteBis"@,
            if p.page_to is Some {
                digits(p.page_to->0 as nat)
            } else {
                seq![]
            },
        ),
    )
    &&& read.attributes.contains(
        (
            "eventual"@,
            if p.provisional {
                "true"@
            } else {
                "false"@
            },
        ),
    )
    &&& read.attributes.contains(
        (
            "nurEinheitspreis"@,
            if p.price_only {
                "true"@
            } else {
                "false"@
            },
        ),
    )
    &&& read.attributes.len() == 5
    &&& read.texts.dom().contains("Kurztext"@) && read.texts["Kurztext"@] == p.short_text
    &&& read.texts.dom().contains("Langtext"@) && read.texts["Langtext"@] == p.long_text
    &&& read.quantity_attributes == seq![
        (
            "einheit"@,
            if p.unit is Some {
                p.unit->0
            } else {
                seq![]
            },
        ),
    ]
    &&& read.texts.dom().contains("Menge"@) && read.texts["Menge"@] == (if p.quantity is Some {
        p.quantity->0.plain()
    } else {
        seq![]
    })
    &&& read.texts.dom().contains("Einheitspreis"@) && read.texts["Einheitspreis"@] == (
    if p.unit_price is Some {
        p.unit_price->0.plain()
    } else {
        seq![]
    })
    &&& read.texts.dom().contains("Gesamtbetrag"@) && read.texts["Gesamtbetrag"@] == (
    if p.total_price is Some {
        p.total_price->0.plain()
    } else {
        seq![]
    })
}

/// Whether positions were read behind those that had been, in their order.
pub open spec fn tells_all(before: ReadBill, after: ReadBill, all: Seq<PositionView>) -> bool {
    &&& after.positions.len() == before.positions.len() + all.len()
    &&& !after.inside
    &&& forall|j: int| 0 <= j < before.positions.len() ==> #[trigger] after.positions[j]
        == before.positions[j]
    &&& forall|j: int| #![trigger all[j]]
        0 <= j < all.len() ==> tells(after.positions[before.positions.len() + j], all[j])
}

#[verifier::rlimit(40)]
proof fn lemma_position_read(s: ReadBill, p: PositionView)
    requires
        !s.inside,
    ensures
        tells_all(s, s.events(position_events(p)), seq![p]),
        s.events(position_events(p)).others == s.others,
        s.events(position_events(p)).tags == s.tags,
{
    lemma_names();
    let attributes = seq![
        ("oz"@, p.oz),
        ("seiteVon"@, page_text(p.page_from)),
        ("seiteBis"@, page_text(p.page_to)),
        ("eventual"@, crate::export::flag_text(p.provisional)),
        ("nurEinheitspreis"@, crate::export::flag_text(p.price_only)),
    ];
    let unit = seq![("einheit"@, crate::export::unit_text(p.unit))];
    let e0 = seq![XmlItemView::Start("Position"@, attributes)];
    let e1 = element("Kurztext"@, p.short_text);
    let e2 = element("Langtext"@, p.long_text);
    let m0 = XmlItemView::Start("Menge"@, unit);
    let m1 = XmlItemView::Text(value_text(p.quantity));
    let m2 = XmlItemView::End("Menge"@);
    let m3 = XmlItemView::Start("Preise"@, seq![("waehrung"@, "EUR"@)]);
    let e3 = seq![m0, m1, m2, m3];
    let e4 = element("Einheitspreis"@, value_text(p.unit_price));
    let e5 = element("Gesamtbetrag"@, value_text(p.total_price));
    let m4 = XmlItemView::End("Preise"@);
    let m5 = XmlItemView::End("Position"@);
    let e6 = seq![m4, m5];
    assert(position_events(p) =~= e0 + e1 + e2 + e3 + e4 + e5 + e6);
    lemma_events_concat(s, e0 + e1 + e2 + e3 + e4 + e5, e6);
    lemma_events_concat(s, e0 + e1 + e2 + e3 + e4, e5);
    lemma_events_concat(s, e0 + e1 + e2 + e3, e4);
    lemma_events_concat(s, e0 + e1 + e2, e3);
    lemma_events_concat(s, e0 + e1, e2);
    lemma_events_concat(s, e0, e1);
    lemma_one_event(s, e0[0]);
    let s0 = s.event(e0[0]);
    lemma_element(s0, "Kurztext"@, p.short_text);
    let s1 = s0.events(e1);
    lemma_element(s1, "Langtext"@, p.long_text);
    let s2 = s1.events(e2);
    assert(e3 =~= seq![m0] + seq![m1] + seq![m2] + seq![m3]);
    lemma_events_concat(s2, seq![m0] + seq![m1] + seq![m2], seq![m3]);
    lemma_events_concat(s2, seq![m0] + seq![m1], seq![m2]);
    lemma_events_concat(s2, seq![m0], seq![m1]);
    lemma_one_event(s2, m0);
    lemma_one_event(s2.event(m0), m1);
    lemma_one_event(s2.event(m0).event(m1), m2);
    lemma_one_event(s2.event(m0).event(m1).event(m2), m3);
    let s3 = s2.events(e3);
    assert(s3 == s2.event(m0).event(m1).event(m2).event(m3));
    lemma_element(s3, "Einheitspreis"@, value_text(p.unit_price));
    let s4 = s3.events(e4);
    lemma_element(s4, "Gesamtbetrag"@, value_text(p.total_price));
    let s5 = s4.events(e5);
    assert(e6 =~= seq![m4] + seq![m5]);
    lemma_events_concat(s5, seq![m4], seq![m5]);
    lemma_one_event(s5, m4);
    lemma_one_event(s5.event(m4), m5);
    let s6 = s5.events(e6);
    let n = s.positions.len() as int;
    assert(s0.positions.len() == n + 1);
    assert(s6.positions.len() == n + 1);
    assert forall|j: int| 0 <= j < n implies #[trigger] s6.positions[j] == s.positions[j] by {
        assert(s0.positions[j] == s.positions[j]);
        assert(s1.positions[j] == s.positions[j]);
        assert(s2.positions[j] == s.positions[j]);
        assert(s3.positions[j] == s.positions[j]);
        assert(s4.positions[j] == s.positions[j]);
        assert(s5.positions[j] == s.positions[j]);
    }
    let read = s6.positions[n];
    assert(read.attributes == attributes);
    assert(attributes[0] == ("oz"@, p.oz));
    assert(attributes[1] == ("seiteVon"@, page_text(p.page_from)));
    assert(attributes[2] == ("seiteBis"@, page_text(p.page_to)));
    assert(attributes[3] == ("eventual"@, crate::export::flag_text(p.provisional)));
    assert(attributes[4] == ("nurEinheitspreis"@, crate::export::flag_text(p.price_only)));
    assert("Kurztext"@ != "Langtext"@);
    assert("Menge"@ != "Einheitspreis"@);
    assert("Kurztext"@.len() == 8 && "Langtext"@.len() == 8) by {
        reveal_strlit("Kurztext");
        reveal_strlit("Langtext");
    }
    assert(tells(read, p));
}

proof fn lemma_tells_more(
    a: ReadBill,
    b: ReadBill,
    c: ReadBill,
    first: Seq<PositionView>,
    second: Seq<PositionView>,
)
    requires
        tells_all(a, b, first),
        tells_all(b, c, second),
    ensures
        tells_all(a, c, first + second),
{
    let all = first + second;
    assert forall|j: int| 0 <= j < a.positions.len() implies #[trigger] c.positions[j]
        == a.positions[j] by {
        assert(b.positions[j] == a.positions[j]);
    }
    assert forall|j: int| #![trigger all[j]] 0 <= j < all.len() implies tells(
        c.positions[a.positions.len() + j],
        all[j],
    ) by {
        if j < first.len() {
            assert(all[j] == first[j]);
            assert(c.positions[a.positions.len() + j] == b.positions[a.positions.len() + j]);
        } else {
            assert(all[j] == second[j - first.len()]);
        }
    }
}

proof fn lemma_positions_read(s: ReadBill, all: Seq<PositionView>)
    requires
        !s.inside,
    ensures
        tells_all(s, s.events(positions_events(all)), all),
        s.events(positions_events(all)).others == s.others,
        s.events(positions_events(all)).tags == s.tags,
    decreases all.len(),
{
    if all.len() > 0 {
        lemma_positions_read(s, all.drop_last());
        let mid = s.events(positions_events(all.drop_last()));
        lemma_events_concat(s, positions_events(all.drop_last()), position_events(all.last()));
        lemma_position_read(mid, all.last());
        lemma_tells_more(
            s,
            mid,
            s.events(positions_events(all)),
            all.drop_last(),
            seq![all.last()],
        );
        assert(all.drop_last() + seq![all.last()] =~= all);
    }
}

/// The headings of a tree, each in front of those below it.
pub open spec fn headings_of(nodes: Seq<NodeView>) -> Seq<NodeView>
    decreases nodes,
{
    if nodes.len() == 0 {
        seq![]
    } else {
        headings_of(nodes.drop_last()).push(nodes.last()) + headings_of(nodes.last().children)
    }
}

/// The titles of headings.
pub open spec fn titles_in(headings: Seq<NodeView>) -> Seq<Seq<char>> {
    Seq::new(headings.len(), |i: int| headings[i].title)
}

/// Whether a tag is that of a heading: its name goes by the level of the heading, and its
/// attributes are the number of the heading and its page.
pub open spec fn heads(
    tag: (Seq<char>, Seq<(Seq<char>, Seq<char>)>),
    heading: NodeView,
) -> bool {
    &&& heading.level == 1 ==> tag.0 == "Bereich"@
    &&& heading.level == 2 ==> tag.0 == "Titel"@
    &&& heading.level == 3 ==> tag.0 == "Untertitel"@
    &&& heading.level == 0 || heading.level > 3 ==> tag.0 == "Gliederung"@
    &&& tag.1 == seq![
        ("oz"@, heading.oz),
        (
            "seite"@,
            if heading.page is Some {
                digits(heading.page->0 as nat)
            } else {
                seq![]
            },
        ),
    ]
}

/// Whether the tags of headings were read behind those that had been read, in their order.
pub open spec fn heads_all(before: ReadBill, after: ReadBill, all: Seq<NodeView>) -> bool {
    &&& after.tags.len() == before.tags.len() + all.len()
    &&& forall|j: int| 0 <= j < before.tags.len() ==> #[trigger] after.tags[j] == before.tags[j]
    &&& forall|j: int| #![trigger all[j]]
        0 <= j < all.len() ==> heads(after.tags[before.tags.len() + j], all[j])
}

proof fn lemma_heads_more(
    a: ReadBill,
    b: ReadBill,
    c: ReadBill,
    first: Seq<NodeView>,
    second: Seq<NodeView>,
)
    requires
        heads_all(a, b, first),
        heads_all(b, c, second),
    ensures
        heads_all(a, c, first + second),
{
    let all = first + second;
    assert forall|j: int| 0 <= j < a.tags.len() implies #[trigger] c.tags[j] == a.tags[j] by {
        assert(b.tags[j] == a.tags[j]);
    }
    assert forall|j: int| #![trigger all[j]] 0 <= j < all.len() implies heads(
        c.tags[a.tags.len() + j],
        all[j],
    ) by {
        if j < first.len() {
            assert(all[j] == first[j]);
            assert(c.tags[a.tags.len() + j] == b.tags[a.tags.len() + j]);
        } else {
            assert(all[j] == second[j - first.len()]);
        }
    }
}

/// Texts, each in an element of this name.
pub open spec fn each_in(name: Seq<char>, all: Seq<Seq<char>>) -> Seq<(Seq<char>, Seq<char>)> {
    Seq::new(all.len(), |i: int| (name, all[i]))
}

proof fn lemma_heading_name(level: nat)
    ensures
        heading_name(level) != "Position"@,
        heading_name(level) != "Menge"@,
{
    lemma_names();
}

proof fn lemma_tree_read(s: ReadBill, nodes: Seq<NodeView>)
    requires
        !s.inside,
    ensures
        tells_all(s, s.events(tree_events(nodes)), positions_of(nodes)),
        s.events(tree_events(nodes)).others == s.others + each_in(
            "Bezeichnung"@,
            titles_in(headings_of(nodes)),
        ),
        heads_all(s, s.events(tree_events(nodes)), headings_of(nodes)),
    decreases nodes,
{
    if nodes.len() == 0 {
        assert(s.others + each_in("Bezeichnung"@, titles_in(headings_of(nodes))) =~= s.others);
    } else {
        let node = nodes.last();
        let name = heading_name(node.level);
        let before = tree_events(nodes.drop_last());
        let open = XmlItemView::Start(
            name,
            seq![("oz"@, node.oz), ("seite"@, page_text(node.page))],
        );
        let title = element("Bezeichnung"@, node.title);
        let own = positions_events(node.positions);
        let below = tree_events(node.children);
        let shut = XmlItemView::End(name);
        lemma_names();
        lemma_heading_name(node.level);
        lemma_tree_read(s, nodes.drop_last());
        let s1 = s.events(before);
        assert(tree_events(nodes) =~= before + seq![open] + title + own + below + seq![shut]);
        lemma_events_concat(s, before + seq![open] + title + own + below, seq![shut]);
        lemma_events_concat(s, before + seq![open] + title + own, below);
        lemma_events_concat(s, before + seq![open] + title, own);
        lemma_events_concat(s, before + seq![open], title);
        lemma_events_concat(s, before, seq![open]);
        lemma_one_event(s1, open);
        let s2 = s1.event(open);
        lemma_element(s2, "Bezeichnung"@, node.title);
        let s3 = s2.events(title);
        assert(s3.positions == s1.positions);
        assert(s3.tags == s1.tags.push((name, open->Start_1)));
        assert(s3.others == s1.others.push(("Bezeichnung"@, node.title)));
        lemma_positions_read(s3, node.positions);
        let s4 = s3.events(own);
        lemma_tree_read(s4, node.children);
        let s5 = s4.events(below);
        lemma_one_event(s5, shut);
        let s6 = s5.event(shut);
        assert(s6 == s.events(tree_events(nodes)));
        lemma_tells_more(s, s1, s4, positions_of(nodes.drop_last()), node.positions);
        lemma_tells_more(
            s,
            s4,
            s6,
            positions_of(nodes.drop_last()) + node.positions,
            positions_of(node.children),
        );
        assert(heads_all(s1, s4, seq![node]));
        lemma_heads_more(s, s1, s4, headings_of(nodes.drop_last()), seq![node]);
        lemma_heads_more(
            s,
            s4,
            s6,
            headings_of(nodes.drop_last()) + seq![node],
            headings_of(node.children),
        );
        assert(headings_of(nodes) =~= headings_of(nodes.drop_last()) + seq![node] + headings_of(
            node.children,
        ));
        assert(s6.others =~= s.others + each_in("Bezeichnung"@, titles_in(headings_of(nodes))));
    }
}

proof fn lemma_warnings_read(s: ReadBill, w: Seq<Seq<char>>)
    requires
        !s.inside,
    ensures
        s.events(warning_events(w)).positions == s.positions,
        !s.events(warning_events(w)).inside,
        s.events(warning_events(w)).tags == s.tags,
        s.events(warning_events(w)).others == s.others + each_in("Warnung"@, w),
    decreases w.len(),
{
    lemma_names();
    if w.len() == 0 {
        assert(s.others + each_in("Warnung"@, w) =~= s.others);
    } else {
        lemma_warnings_read(s, w.drop_last());
        let mid = s.events(warning_events(w.drop_last()));
        lemma_events_concat(s, warning_events(w.drop_last()), element("Warnung"@, w.last()));
        lemma_element(mid, "Warnung"@, w.last());
        assert(s.events(warning_events(w)).others =~= s.others + each_in("Warnung"@, w));
    }
}

proof fn lemma_text_element(s: ReadBill, name: Seq<char>, value: Seq<char>)
    requires
        !s.inside,
        name != "Position"@,
        name != "Menge"@,
    ensures
        s.events(element(name, value)).positions == s.positions,
        !s.events(element(name, value)).inside,
        s.events(element(name, value)).tags == s.tags,
        s.events(element(name, value)).others == s.others.push((name, value)),
{
    lemma_element(s, name, value);
}

/// A tag outside of positions leaves positions and texts as they are.
proof fn lemma_tag(s: ReadBill, e: XmlItemView)
    requires
        !s.inside,
        e is Start ==> e->Start_0 != "Position"@,
        !(e is Text),
    ensures
        s.events(seq![e]).positions == s.positions,
        !s.events(seq![e]).inside,
        s.events(seq![e]).tags == (if e is Start && e->Start_1.len() > 0 {
            s.tags.push((e->Start_0, e->Start_1))
        } else {
            s.tags
        }),
        s.events(seq![e]).others == s.others,
{
    lemma_one_event(s, e);
}

/// The plain XML document of a bill holds every position once, in the order of the bill,
/// and each says in its own attributes and elements what the position says; in particular
/// the unit price stands in `Einheitspreis` and the total in `Gesamtbetrag`. Outside of
/// the positions stand the source, the project, the client, the bidder, the preamble where
/// there is one, the titles of the headings and the warnings, each in an element of its
/// own. The tag of the whole names the currency, and each heading has a tag with its number
/// and page.
#[verifier::rlimit(60)]
pub proof fn law_master_xml_tells_the_bill(boq: BoqView)
    ensures
        ({
            let read = unread().events(master_events(boq));
            let all = positions_of(boq.roots);
            &&& read.positions.len() == all.len()
            &&& forall|j: int| #![trigger all[j]]
                0 <= j < all.len() ==> tells(read.positions[j], all[j])
            &&& read.others == seq![
                ("Quelldatei"@, boq.source),
                ("Projekt"@, boq.project),
                ("Auftraggeber"@, boq.client),
                ("Bieter"@, boq.bidder),
            ] + each_in(
                "Vorbemerkungen"@,
                if boq.preamble.len() == 0 {
                    seq![]
                } else {
                    seq![boq.preamble]
                },
            ) + each_in("Bezeichnung"@, titles_in(headings_of(boq.roots))) + each_in("Warnung"@, boq.warnings)
            &&& read.tags.len() == 1 + headings_of(boq.roots).len()
            &&& read.tags[0] == (
                "Leistungsverzeichnis"@,
                seq![("version"@, "0.1"@), ("currency"@, boq.currency)],
            )
            &&& forall|j: int| #![trigger headings_of(boq.roots)[j]]
                0 <= j < headings_of(boq.roots).len() ==> heads(
                    read.tags[1 + j],
                    headings_of(boq.roots)[j],
                )
        }),
{
    lemma_names();
    let s = unread();
    let d = XmlItemView::Declaration;
    let root = XmlItemView::Start(
        "Leistungsverzeichnis"@,
        seq![("version"@, "0.1"@), ("currency"@, boq.currency)],
    );
    let meta = start_tag("Metadaten"@);
    let a1 = element("Quelldatei"@, boq.source);
    let a2 = element("Projekt"@, boq.project);
    let a3 = element("Auftraggeber"@, boq.client);
    let a4 = element("Bieter"@, boq.bidder);
    let meta_end = XmlItemView::End("Metadaten"@);
    let pre = if boq.preamble.len() == 0 {
        seq![]
    } else {
        element("Vorbemerkungen"@, boq.preamble)
    };
    let tree_start = start_tag("Hierarchie"@);
    let tree = tree_events(boq.roots);
    let tree_end = XmlItemView::End("Hierarchie"@);
    let w_start = start_tag("Validierung"@);
    let w_end = XmlItemView::End("Validierung"@);
    let warned = if boq.warnings.len() == 0 {
        seq![]
    } else {
        seq![w_start] + warning_events(boq.warnings) + seq![w_end]
    };
    let root_end = XmlItemView::End("Leistungsverzeichnis"@);
    let h1 = seq![d] + seq![root] + seq![meta];
    let h2 = h1 + a1 + a2 + a3 + a4;
    let h3 = h2 + seq![meta_end] + pre;
    let h4 = h3 + seq![tree_start] + tree + seq![tree_end];
    assert(master_events(boq) =~= h4 + warned + seq![root_end]);
    lemma_events_concat(s, h4 + warned, seq![root_end]);
    lemma_events_concat(s, h4, warned);
    lemma_events_concat(s, h3 + seq![tree_start] + tree, seq![tree_end]);
    lemma_events_concat(s, h3 + seq![tree_start], tree);
    lemma_events_concat(s, h3, seq![tree_start]);
    lemma_events_concat(s, h2 + seq![meta_end], pre);
    lemma_events_concat(s, h2, seq![meta_end]);
    lemma_events_concat(s, h1 + a1 + a2 + a3, a4);
    lemma_events_concat(s, h1 + a1 + a2, a3);
    lemma_events_concat(s, h1 + a1, a2);
    lemma_events_concat(s, h1, a1);
    lemma_events_concat(s, seq![d] + seq![root], seq![meta]);
    lemma_events_concat(s, seq![d], seq![root]);
    lemma_tag(s, d);
    lemma_tag(s.events(seq![d]), root);
    lemma_tag(s.events(seq![d] + seq![root]), meta);
    lemma_text_element(s.events(h1), "Quelldatei"@, boq.source);
    lemma_text_element(s.events(h1 + a1), "Projekt"@, boq.project);
    lemma_text_element(s.events(h1 + a1 + a2), "Auftraggeber"@, boq.client);
    lemma_text_element(s.events(h1 + a1 + a2 + a3), "Bieter"@, boq.bidder);
    lemma_tag(s.events(h2), meta_end);
    let s2 = s.events(h2 + seq![meta_end]);
    if boq.preamble.len() > 0 {
        lemma_text_element(s2, "Vorbemerkungen"@, boq.preamble);
    }
    let s3 = s.events(h3);
    assert(s3.others =~= seq![
        ("Quelldatei"@, boq.source),
        ("Projekt"@, boq.project),
        ("Auftraggeber"@, boq.client),
        ("Bieter"@, boq.bidder),
    ] + each_in(
        "Vorbemerkungen"@,
        if boq.preamble.len() == 0 {
            seq![]
        } else {
            seq![boq.preamble]
        },
    ));
    lemma_tag(s3, tree_start);
    let s4 = s.events(h3 + seq![tree_start]);
    lemma_tree_read(s4, boq.roots);
    let s5 = s.events(h3 + seq![tree_start] + tree);
    lemma_tag(s5, tree_end);
    let s6 = s.events(h4);
    let w = boq.warnings;
    if w.len() > 0 {
        lemma_events_concat(s6, seq![w_start] + warning_events(w), seq![w_end]);
        lemma_events_concat(s6, seq![w_start], warning_events(w));
        lemma_tag(s6, w_start);
        lemma_warnings_read(s6.events(seq![w_start]), w);
        lemma_tag(s6.events(seq![w_start] + warning_events(w)), w_end);
    } else {
        assert(s6.others + each_in("Warnung"@, w) =~= s6.others);
    }
    let s7 = s6.events(warned);
    lemma_tag(s7, root_end);
    let headings = headings_of(boq.roots);
    assert(s3.tags == seq![("Leistungsverzeichnis"@, root->Start_1)]);
    assert forall|j: int| #![trigger headings[j]] 0 <= j < headings.len() implies heads(
        s7.tags[1 + j],
        headings[j],
    ) by {
        assert(heads(s5.tags[s4.tags.len() + j], headings[j]));
    }
    let all = positions_of(boq.roots);
    assert forall|j: int| #![trigger all[j]] 0 <= j < all.len() implies tells(
        s7.positions[j],
        all[j],
    ) by {
        assert(tells(s5.positions[s4.positions.len() + j], all[j]));
    }
}

} // verus!
