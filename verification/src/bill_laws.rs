//! What holds of bills on their way into documents.

use crate::clock::MomentView;
use crate::decimal::Dec;
use crate::document::{DocumentView, RowView};
use crate::gaeb2000_export::p84;
use crate::gaeb90_export::{d84, fully_priced, items_of, lengths_of, numeric, shared_lengths, total};
use crate::gaeb_xml::{
    award_events, boq_info_events, document_events, heading_closing, heading_opening, info_events,
    item_description, item_events, item_numbers, item_texts, itemlist, items_events, level_events,
    numbered_tag, optional_number, paragraph, paragraphs, project_events, rich_text, text_block,
    tree_events, Style,
};
use crate::model::{empty_node, BoqView, NodeView, PositionView};
use crate::outline::{
    changed, heading_index, outline, placed, position_of_item, with_heading, ChangeView,
};
use crate::parser::{
    bill_warnings, filed, heading_of, position_warnings, price_gap, said_to_be_omitted, titled,
    with_read_heading, HeadingView,
};
use crate::text::{join, lines, split, trim};
use crate::tree::{lemma_positions_concat, positions_of};
use crate::x83::{conflicts_of, lacking, lacking_until, lacks, numbered_before, omitted};
use crate::xml::{element, start_tag, XmlItemView};
use crate::{dropped_numbers, excused, not_excused, request_outcome};
use vstd::multiset::Multiset;
use vstd::prelude::*;

verus! {

/// Whether a position stands in the way of a request: its number has occurred before, it
/// has no text, or it has no quantity or unit and is not marked as dropped.
pub open spec fn stands_in_way(all: Seq<PositionView>, j: int) -> bool {
    let p = all[j];
    ||| numbered_before(all, j, p.oz)
    ||| trim(p.short_text).len() == 0 && trim(p.long_text).len() == 0
    ||| (p.quantity is None || lacks(p.unit)) && !dropped_numbers(all, all.len()).contains(
        trim(p.oz),
    )
}

proof fn lemma_excused(oz: Seq<char>, dropped: Seq<Seq<char>>)
    ensures
        !excused("Doppelte OZ: "@ + oz, dropped),
        !excused("Positionstext fehlt: "@ + oz, dropped),
        excused("Menge fehlt: "@ + oz, dropped) == dropped.contains(trim(oz)),
        excused("Einheit fehlt: "@ + oz, dropped) == dropped.contains(trim(oz)),
{
    reveal_strlit("Doppelte OZ: ");
    reveal_strlit("Positionstext fehlt: ");
    reveal_strlit("Menge fehlt: ");
    reveal_strlit("Einheit fehlt: ");
    let m = "Menge fehlt: "@;
    let e = "Einheit fehlt: "@;
    let a = "Doppelte OZ: "@ + oz;
    let b = "Positionstext fehlt: "@ + oz;
    let c = m + oz;
    let d = e + oz;
    assert(m[0] == 'M' && e[0] == 'E' && a[0] == 'D' && b[0] == 'P' && c[0] == 'M' && d[0] == 'E');
    assert(!m.is_prefix_of(a) && !e.is_prefix_of(a)) by {
        if m.is_prefix_of(a) {
            assert(a.subrange(0, m.len() as int)[0] == a[0]);
        }
        if e.is_prefix_of(a) {
            assert(a.subrange(0, e.len() as int)[0] == a[0]);
        }
    }
    assert(!m.is_prefix_of(b) && !e.is_prefix_of(b)) by {
        if m.is_prefix_of(b) {
            assert(b.subrange(0, m.len() as int)[0] == b[0]);
        }
        if e.is_prefix_of(b) {
            assert(b.subrange(0, e.len() as int)[0] == b[0]);
        }
    }
    assert(!m.is_prefix_of(d)) by {
        if m.is_prefix_of(d) {
            assert(d.subrange(0, m.len() as int)[0] == d[0]);
        }
    }
    assert(c.subrange(0, m.len() as int) =~= m);
    assert(d.subrange(0, e.len() as int) =~= e);
    assert(c.skip(m.len() as int) =~= oz);
    assert(d.skip(e.len() as int) =~= oz);
}

proof fn lemma_lacking_kept(all: Seq<PositionView>, n: nat, j: int, c: Seq<char>)
    requires
        0 <= j < n,
        lacking(all[j], numbered_before(all, j, all[j].oz)).contains(c),
    ensures
        lacking_until(all, n).contains(c),
    decreases n,
{
    let before = lacking_until(all, (n - 1) as nat);
    let here = lacking(all[n - 1], numbered_before(all, n - 1, all[n - 1].oz));
    if j < n - 1 {
        lemma_lacking_kept(all, (n - 1) as nat, j, c);
        let i = choose|i: int| 0 <= i < before.len() && before[i] == c;
        assert((before + here)[i] == c);
    } else {
        let i = choose|i: int| 0 <= i < here.len() && here[i] == c;
        assert((before + here)[before.len() + i] == c);
    }
}

proof fn lemma_conflict_kept(conflicts: Seq<Seq<char>>, n: nat, dropped: Seq<Seq<char>>, i: int)
    requires
        0 <= i < n <= conflicts.len(),
        !excused(conflicts[i], dropped),
    ensures
        not_excused(conflicts, n, dropped).len() > 0,
    decreases n,
{
    if i < n - 1 {
        lemma_conflict_kept(conflicts, (n - 1) as nat, dropped, i);
    }
}

proof fn lemma_conflicts_excused(conflicts: Seq<Seq<char>>, n: nat, dropped: Seq<Seq<char>>)
    requires
        n <= conflicts.len(),
        forall|i: int| 0 <= i < conflicts.len() ==> excused(#[trigger] conflicts[i], dropped),
    ensures
        not_excused(conflicts, n, dropped).len() == 0,
    decreases n,
{
    if n > 0 {
        lemma_conflicts_excused(conflicts, (n - 1) as nat, dropped);
        assert(excused(conflicts[n - 1], dropped));
    }
}

/// A request is refused while a position stands in its way. After a manual release it is
/// written all the same.
pub proof fn law_request_refused(boq: BoqView, moment: MomentView, j: int)
    requires
        0 <= j < positions_of(boq.roots).len(),
        stands_in_way(positions_of(boq.roots), j),
    ensures
        request_outcome(boq, moment, false) is Err,
        request_outcome(boq, moment, true) is Ok,
{
    let all = positions_of(boq.roots);
    let p = all[j];
    let dropped = dropped_numbers(all, all.len());
    lemma_excused(p.oz, dropped);
    let repeated = numbered_before(all, j, p.oz);
    let here = lacking(p, repeated);
    let a = if repeated {
        seq!["Doppelte OZ: "@ + p.oz]
    } else {
        seq![]
    };
    let b = if p.quantity is None {
        a.push("Menge fehlt: "@ + p.oz)
    } else {
        a
    };
    let c = if lacks(p.unit) {
        b.push("Einheit fehlt: "@ + p.oz)
    } else {
        b
    };
    let at = if repeated {
        0
    } else if trim(p.short_text).len() == 0 && trim(p.long_text).len() == 0 {
        here.len() - 1
    } else {
        0
    };
    assert(!excused(here[at], dropped) && 0 <= at < here.len());
    assert(here.contains(here[at]));
    lemma_lacking_kept(all, all.len(), j, here[at]);
    let conflicts = conflicts_of(boq);
    let i = choose|i: int| 0 <= i < conflicts.len() && conflicts[i] == here[at];
    lemma_conflict_kept(conflicts, conflicts.len(), dropped, i);
}

proof fn lemma_lacking_excused(all: Seq<PositionView>, n: nat)
    requires
        n <= all.len(),
        forall|j: int| 0 <= j < all.len() ==> !stands_in_way(all, j),
    ensures
        forall|i: int|
            0 <= i < lacking_until(all, n).len() ==> excused(
                #[trigger] lacking_until(all, n)[i],
                dropped_numbers(all, all.len()),
            ),
    decreases n,
{
    if n > 0 {
        lemma_lacking_excused(all, (n - 1) as nat);
        let p = all[n - 1];
        let dropped = dropped_numbers(all, all.len());
        lemma_excused(p.oz, dropped);
        assert(!stands_in_way(all, n - 1));
        let before = lacking_until(all, (n - 1) as nat);
        let here = lacking(p, numbered_before(all, n - 1, p.oz));
        assert forall|i: int| 0 <= i < (before + here).len() implies excused(
            #[trigger] (before + here)[i],
            dropped,
        ) by {
            if i < before.len() {
                assert(excused(before[i], dropped));
            } else {
                let k = i - before.len();
                assert(here[k] == "Menge fehlt: "@ + p.oz || here[k] == "Einheit fehlt: "@ + p.oz);
            }
        }
    }
}

/// A request is written where no position stands in its way.
pub proof fn law_request_written(boq: BoqView, moment: MomentView)
    requires
        forall|j: int|
            0 <= j < positions_of(boq.roots).len() ==> !stands_in_way(positions_of(boq.roots), j),
    ensures
        request_outcome(boq, moment, false) is Ok,
{
    let all = positions_of(boq.roots);
    lemma_lacking_excused(all, all.len());
    let conflicts = conflicts_of(boq);
    lemma_conflicts_excused(conflicts, conflicts.len(), dropped_numbers(all, all.len()));
}

proof fn lemma_dropped_number(all: Seq<PositionView>, n: nat, j: int)
    requires
        0 <= j < n <= all.len(),
        omitted(all[j]),
    ensures
        dropped_numbers(all, n).contains(all[j].oz),
    decreases n,
{
    let before = dropped_numbers(all, (n - 1) as nat);
    if j < n - 1 {
        lemma_dropped_number(all, (n - 1) as nat, j);
        let i = choose|i: int| 0 <= i < before.len() && before[i] == all[j].oz;
        assert(dropped_numbers(all, n)[i] == all[j].oz);
    } else {
        assert(dropped_numbers(all, n)[before.len() as int] == all[j].oz);
    }
}

/// A position that is marked as dropped needs neither quantity nor unit.
pub proof fn law_dropped_needs_no_quantity(all: Seq<PositionView>, j: int)
    requires
        0 <= j < all.len(),
        omitted(all[j]),
        trim(all[j].oz) == all[j].oz,
        !numbered_before(all, j, all[j].oz),
        trim(all[j].short_text).len() > 0 || trim(all[j].long_text).len() > 0,
    ensures
        !stands_in_way(all, j),
{
    lemma_dropped_number(all, all.len(), j);
}

/// How many start tags of this name there are.
pub open spec fn tags(events: Seq<XmlItemView>, name: Seq<char>) -> nat
    decreases events.len(),
{
    if events.len() == 0 {
        0
    } else {
        tags(events.drop_last(), name) + match events.last() {
            XmlItemView::Start(n, _) => if n == name {
                1nat
            } else {
                0nat
            },
            _ => 0nat,
        }
    }
}

proof fn lemma_tags_concat(a: Seq<XmlItemView>, b: Seq<XmlItemView>, name: Seq<char>)
    ensures
        tags(a + b, name) == tags(a, name) + tags(b, name),
    decreases b.len(),
{
    if b.len() == 0 {
        assert(a + b =~= a);
    } else {
        lemma_tags_concat(a, b.drop_last(), name);
        assert((a + b).drop_last() =~= a + b.drop_last());
        assert((a + b).last() == b.last());
    }
}

proof fn lemma_tags_one(e: XmlItemView, name: Seq<char>)
    ensures
        tags(seq![e], name) == (match e {
            XmlItemView::Start(n, _) => if n == name {
                1nat
            } else {
                0nat
            },
            _ => 0nat,
        }),
{
    assert(seq![e].drop_last() =~= Seq::<XmlItemView>::empty());
    assert(tags(seq![e].drop_last(), name) == 0);
}

proof fn lemma_tags_two(a: XmlItemView, b: XmlItemView, name: Seq<char>)
    ensures
        tags(seq![a, b], name) == tags(seq![a], name) + tags(seq![b], name),
{
    assert(seq![a, b] =~= seq![a] + seq![b]);
    lemma_tags_concat(seq![a], seq![b], name);
}

proof fn lemma_tags_element(n: Seq<char>, value: Seq<char>, name: Seq<char>)
    ensures
        tags(element(n, value), name) == (if n == name {
            1nat
        } else {
            0nat
        }),
{
    let a = start_tag(n);
    let b = XmlItemView::Text(value);
    let c = XmlItemView::End(n);
    assert(element(n, value) =~= seq![a] + seq![b] + seq![c]);
    lemma_tags_concat(seq![a] + seq![b], seq![c], name);
    lemma_tags_concat(seq![a], seq![b], name);
    lemma_tags_one(a, name);
    lemma_tags_one(b, name);
    lemma_tags_one(c, name);
}

/// A name that only items have: their own, those of their prices, of their quantities and
/// of their descriptions.
spec fn special(name: Seq<char>) -> bool {
    name == "Item"@ || price_name(name) || detail_name(name)
}

spec fn price_name(name: Seq<char>) -> bool {
    name == "UP"@ || name == "IT"@
}

spec fn detail_name(name: Seq<char>) -> bool {
    name == "Qty"@ || name == "QU"@ || name == "Description"@ || name == "DetailTxt"@ || name
        == "OutlineText"@
}

/// Whether a document of this style has a name once for each item or not at all.
spec fn settled_in(name: Seq<char>, style: Style) -> bool {
    name == "Item"@ || (price_name(name) && style is Request) || (detail_name(name) && style is Offer)
}

proof fn lemma_special(name: Seq<char>)
    requires
        special(name),
    ensures
        name != "GAEBInfo"@,
        name != "Version"@,
        name != "VersDate"@,
        name != "Date"@,
        name != "Time"@,
        name != "ProgSystem"@,
        name != "ProgName"@,
        name != "Certific"@,
        name != "PrjInfo"@,
        name != "NamePrj"@,
        name != "LblPrj"@,
        name != "Cur"@,
        name != "CurLbl"@,
        name != "Award"@,
        name != "DP"@,
        name != "AwardInfo"@,
        name != "AddText"@,
        name != "OutlineAddText"@,
        name != "span"@,
        name != "DetailAddText"@,
        name != "p"@,
        name != "BoQInfo"@,
        name != "Name"@,
        name != "LblBoQ"@,
        name != "OutlCompl"@,
        name != "BoQBkdn"@,
        name != "Type"@,
        name != "LblBoQBkdn"@,
        name != "Length"@,
        name != "Num"@,
        name != "BoQBody"@,
        name != "BoQCtgy"@,
        name != "LblTx"@,
        name != "Itemlist"@,
        name != "CompleteText"@,
        name != "Text"@,
        name != "OutlTxt"@,
        name != "TextOutlTxt"@,
        name != "GAEB"@,
        name != "BoQ"@,
        name == "Item"@ ==> !price_name(name) && !detail_name(name),
        price_name(name) ==> !detail_name(name),
{
    reveal_strlit("Item");
    reveal_strlit("UP");
    reveal_strlit("IT");
    reveal_strlit("Qty");
    reveal_strlit("QU");
    reveal_strlit("Description");
    reveal_strlit("DetailTxt");
    reveal_strlit("OutlineText");
    assert("Item"@.len() == 4 && "Item"@[0] == 'I');
    assert("UP"@.len() == 2 && "UP"@[0] == 'U');
    assert("IT"@.len() == 2 && "IT"@[0] == 'I');
    assert("Qty"@.len() == 3 && "Qty"@[0] == 'Q');
    assert("QU"@.len() == 2 && "QU"@[0] == 'Q');
    assert("Description"@.len() == 11 && "Description"@[0] == 'D');
    assert("DetailTxt"@.len() == 9 && "DetailTxt"@[0] == 'D');
    assert("OutlineText"@.len() == 11 && "OutlineText"@[0] == 'O');
    assert(name != "GAEBInfo"@) by {
        reveal_strlit("GAEBInfo");
        assert("GAEBInfo"@.len() == 8 && "GAEBInfo"@[0] == 'G');
    }
    assert(name != "Version"@) by {
        reveal_strlit("Version");
        assert("Version"@.len() == 7 && "Version"@[0] == 'V');
    }
    assert(name != "VersDate"@) by {
        reveal_strlit("VersDate");
        assert("VersDate"@.len() == 8 && "VersDate"@[0] == 'V');
    }
    assert(name != "Date"@) by {
        reveal_strlit("Date");
        assert("Date"@.len() == 4 && "Date"@[0] == 'D');
    }
    assert(name != "Time"@) by {
        reveal_strlit("Time");
        assert("Time"@.len() == 4 && "Time"@[0] == 'T');
    }
    assert(name != "ProgSystem"@) by {
        reveal_strlit("ProgSystem");
        assert("ProgSystem"@.len() == 10 && "ProgSystem"@[0] == 'P');
    }
    assert(name != "ProgName"@) by {
        reveal_strlit("ProgName");
        assert("ProgName"@.len() == 8 && "ProgName"@[0] == 'P');
    }
    assert(name != "Certific"@) by {
        reveal_strlit("Certific");
        assert("Certific"@.len() == 8 && "Certific"@[0] == 'C');
    }
    assert(name != "PrjInfo"@) by {
        reveal_strlit("PrjInfo");
        assert("PrjInfo"@.len() == 7 && "PrjInfo"@[0] == 'P');
    }
    assert(name != "NamePrj"@) by {
        reveal_strlit("NamePrj");
        assert("NamePrj"@.len() == 7 && "NamePrj"@[0] == 'N');
    }
    assert(name != "LblPrj"@) by {
        reveal_strlit("LblPrj");
        assert("LblPrj"@.len() == 6 && "LblPrj"@[0] == 'L');
    }
    assert(name != "Cur"@) by {
        reveal_strlit("Cur");
        assert("Cur"@.len() == 3 && "Cur"@[0] == 'C');
    }
    assert(name != "CurLbl"@) by {
        reveal_strlit("CurLbl");
        assert("CurLbl"@.len() == 6 && "CurLbl"@[0] == 'C');
    }
    assert(name != "Award"@) by {
        reveal_strlit("Award");
        assert("Award"@.len() == 5 && "Award"@[0] == 'A');
    }
    assert(name != "DP"@) by {
        reveal_strlit("DP");
        assert("DP"@.len() == 2 && "DP"@[0] == 'D');
    }
    assert(name != "AwardInfo"@) by {
        reveal_strlit("AwardInfo");
        assert("AwardInfo"@.len() == 9 && "AwardInfo"@[0] == 'A');
    }
    assert(name != "AddText"@) by {
        reveal_strlit("AddText");
        assert("AddText"@.len() == 7 && "AddText"@[0] == 'A');
    }
    assert(name != "OutlineAddText"@) by {
        reveal_strlit("OutlineAddText");
        assert("OutlineAddText"@.len() == 14 && "OutlineAddText"@[0] == 'O');
    }
    assert(name != "span"@) by {
        reveal_strlit("span");
        assert("span"@.len() == 4 && "span"@[0] == 's');
    }
    assert(name != "DetailAddText"@) by {
        reveal_strlit("DetailAddText");
        assert("DetailAddText"@.len() == 13 && "DetailAddText"@[0] == 'D');
    }
    assert(name != "p"@) by {
        reveal_strlit("p");
        assert("p"@.len() == 1 && "p"@[0] == 'p');
    }
    assert(name != "BoQInfo"@) by {
        reveal_strlit("BoQInfo");
        assert("BoQInfo"@.len() == 7 && "BoQInfo"@[0] == 'B');
    }
    assert(name != "Name"@) by {
        reveal_strlit("Name");
        assert("Name"@.len() == 4 && "Name"@[0] == 'N');
    }
    assert(name != "LblBoQ"@) by {
        reveal_strlit("LblBoQ");
        assert("LblBoQ"@.len() == 6 && "LblBoQ"@[0] == 'L');
    }
    assert(name != "OutlCompl"@) by {
        reveal_strlit("OutlCompl");
        assert("OutlCompl"@.len() == 9 && "OutlCompl"@[0] == 'O');
    }
    assert(name != "BoQBkdn"@) by {
        reveal_strlit("BoQBkdn");
        assert("BoQBkdn"@.len() == 7 && "BoQBkdn"@[0] == 'B');
    }
    assert(name != "Type"@) by {
        reveal_strlit("Type");
        assert("Type"@.len() == 4 && "Type"@[0] == 'T');
    }
    assert(name != "LblBoQBkdn"@) by {
        reveal_strlit("LblBoQBkdn");
        assert("LblBoQBkdn"@.len() == 10 && "LblBoQBkdn"@[0] == 'L');
    }
    assert(name != "Length"@) by {
        reveal_strlit("Length");
        assert("Length"@.len() == 6 && "Length"@[0] == 'L');
    }
    assert(name != "Num"@) by {
        reveal_strlit("Num");
        assert("Num"@.len() == 3 && "Num"@[0] == 'N');
    }
    assert(name != "BoQBody"@) by {
        reveal_strlit("BoQBody");
        assert("BoQBody"@.len() == 7 && "BoQBody"@[0] == 'B');
    }
    assert(name != "BoQCtgy"@) by {
        reveal_strlit("BoQCtgy");
        assert("BoQCtgy"@.len() == 7 && "BoQCtgy"@[0] == 'B');
    }
    assert(name != "LblTx"@) by {
        reveal_strlit("LblTx");
        assert("LblTx"@.len() == 5 && "LblTx"@[0] == 'L');
    }
    assert(name != "Itemlist"@) by {
        reveal_strlit("Itemlist");
        assert("Itemlist"@.len() == 8 && "Itemlist"@[0] == 'I');
    }
    assert(name != "CompleteText"@) by {
        reveal_strlit("CompleteText");
        assert("CompleteText"@.len() == 12 && "CompleteText"@[0] == 'C');
    }
    assert(name != "Text"@) by {
        reveal_strlit("Text");
        assert("Text"@.len() == 4 && "Text"@[0] == 'T');
    }
    assert(name != "OutlTxt"@) by {
        reveal_strlit("OutlTxt");
        assert("OutlTxt"@.len() == 7 && "OutlTxt"@[0] == 'O');
    }
    assert(name != "TextOutlTxt"@) by {
        reveal_strlit("TextOutlTxt");
        assert("TextOutlTxt"@.len() == 11 && "TextOutlTxt"@[0] == 'T');
    }
    assert(name != "GAEB"@) by {
        reveal_strlit("GAEB");
        assert("GAEB"@.len() == 4 && "GAEB"@[0] == 'G');
    }
    assert(name != "BoQ"@) by {
        reveal_strlit("BoQ");
        assert("BoQ"@.len() == 3 && "BoQ"@[0] == 'B');
    }
}

proof fn lemma_tags_paragraph(value: Seq<char>, name: Seq<char>)
    requires
        special(name),
    ensures
        tags(paragraph(value), name) == 0,
{
    lemma_special(name);
    let a = seq![start_tag("p"@)];
    let b = element("span"@, value);
    let c = seq![XmlItemView::End("p"@)];
    lemma_tags_concat(a + b, c, name);
    lemma_tags_concat(a, b, name);
    lemma_tags_one(start_tag("p"@), name);
    lemma_tags_element("span"@, value, name);
    lemma_tags_one(XmlItemView::End("p"@), name);
}

proof fn lemma_tags_paragraphs(all: Seq<Seq<char>>, n: nat, name: Seq<char>)
    requires
        special(name),
    ensures
        tags(paragraphs(all, n), name) == 0,
    decreases n,
{
    if n > 0 {
        lemma_tags_paragraphs(all, (n - 1) as nat, name);
        if trim(all[n - 1]).len() > 0 {
            lemma_tags_paragraph(trim(all[n - 1]), name);
            lemma_tags_concat(
                paragraphs(all, (n - 1) as nat),
                paragraph(trim(all[n - 1])),
                name,
            );
        }
    }
}

/// An element around events has its own tag and theirs.
proof fn lemma_tags_wrapped(first: XmlItemView, body: Seq<XmlItemView>, last: XmlItemView, name: Seq<char>)
    requires
        last is End,
    ensures
        tags(seq![first] + body + seq![last], name) == tags(seq![first], name) + tags(body, name),
{
    lemma_tags_concat(seq![first] + body, seq![last], name);
    lemma_tags_concat(seq![first], body, name);
    lemma_tags_one(last, name);
}

proof fn lemma_tags_text_block(n: Seq<char>, value: Seq<char>, name: Seq<char>)
    requires
        special(name),
        n != name,
    ensures
        tags(text_block(n, value), name) == 0,
{
    let all = lines(value);
    lemma_tags_paragraph(Seq::empty(), name);
    lemma_tags_paragraphs(all, all.len(), name);
    let body = if crate::gaeb_xml::blank(all) {
        paragraph(Seq::empty())
    } else {
        paragraphs(all, all.len())
    };
    lemma_tags_wrapped(start_tag(n), body, XmlItemView::End(n), name);
    lemma_tags_one(start_tag(n), name);
}

proof fn lemma_tags_item_texts(p: PositionView, name: Seq<char>)
    requires
        special(name),
        !detail_name(name),
    ensures
        tags(item_texts(p), name) == 0,
{
    lemma_special(name);
    let none = Seq::<XmlItemView>::empty();
    let detail = if trim(p.long_text).len() > 0 {
        seq![start_tag("DetailTxt"@)] + text_block("Text"@, p.long_text) + seq![
            XmlItemView::End("DetailTxt"@),
        ]
    } else {
        none
    };
    lemma_tags_text_block("Text"@, p.long_text, name);
    lemma_tags_wrapped(
        start_tag("DetailTxt"@),
        text_block("Text"@, p.long_text),
        XmlItemView::End("DetailTxt"@),
        name,
    );
    lemma_tags_one(start_tag("DetailTxt"@), name);
    let a = seq![start_tag("Description"@), start_tag("CompleteText"@)];
    let b = seq![start_tag("OutlineText"@), start_tag("OutlTxt"@)];
    let c = text_block("TextOutlTxt"@, p.short_text);
    let x = seq![XmlItemView::End("OutlTxt"@), XmlItemView::End("OutlineText"@)];
    let y = seq![XmlItemView::End("CompleteText"@), XmlItemView::End("Description"@)];
    lemma_tags_two(start_tag("Description"@), start_tag("CompleteText"@), name);
    lemma_tags_one(start_tag("Description"@), name);
    lemma_tags_one(start_tag("CompleteText"@), name);
    lemma_tags_two(start_tag("OutlineText"@), start_tag("OutlTxt"@), name);
    lemma_tags_one(start_tag("OutlineText"@), name);
    lemma_tags_one(start_tag("OutlTxt"@), name);
    lemma_tags_text_block("TextOutlTxt"@, p.short_text, name);
    lemma_tags_two(x[0], x[1], name);
    lemma_tags_one(x[0], name);
    lemma_tags_one(x[1], name);
    lemma_tags_two(y[0], y[1], name);
    lemma_tags_one(y[0], name);
    lemma_tags_one(y[1], name);
    assert(item_texts(p) =~= a + detail + b + c + x + y);
    lemma_tags_concat(a + detail + b + c + x, y, name);
    lemma_tags_concat(a + detail + b + c, x, name);
    lemma_tags_concat(a + detail + b, c, name);
    lemma_tags_concat(a + detail, b, name);
    lemma_tags_concat(a, detail, name);
}

proof fn lemma_tags_item_numbers(p: PositionView, style: Style, name: Seq<char>)
    requires
        special(name),
        settled_in(name, style),
    ensures
        tags(item_numbers(p, style), name) == 0,
{
    lemma_special(name);
    let unit = match p.unit {
        Some(unit) => if trim(unit).len() > 0 {
            element("QU"@, unit)
        } else {
            seq![]
        },
        None => seq![],
    };
    if !(style is Offer) {
        if p.unit is Some {
            lemma_tags_element("QU"@, p.unit->0, name);
        }
        assert(tags(unit, name) == 0);
    }
    match style {
        Style::Request => {
            let q = optional_number("Qty"@, p.quantity, None);
            if p.quantity is Some {
                lemma_tags_element("Qty"@, p.quantity->0.normalize().plain(), name);
            }
            lemma_tags_concat(q, unit, name);
        },
        Style::Priced => {
            let q = optional_number("Qty"@, p.quantity, Some(3));
            let u = optional_number("UP"@, p.unit_price, Some(2));
            let t = optional_number("IT"@, p.total_price, Some(2));
            if p.quantity is Some {
                lemma_tags_element("Qty"@, p.quantity->0.round_dp(3).normalize().plain(), name);
            }
            if p.unit_price is Some {
                lemma_tags_element("UP"@, p.unit_price->0.round_dp(2).normalize().plain(), name);
            }
            if p.total_price is Some {
                lemma_tags_element("IT"@, p.total_price->0.round_dp(2).normalize().plain(), name);
            }
            lemma_tags_concat(q + unit + u, t, name);
            lemma_tags_concat(q + unit, u, name);
            lemma_tags_concat(q, unit, name);
        },
        Style::Offer => {
            let u = optional_number("UP"@, p.unit_price, Some(2));
            let t = optional_number("IT"@, p.total_price, Some(2));
            if p.unit_price is Some {
                lemma_tags_element("UP"@, p.unit_price->0.round_dp(2).normalize().plain(), name);
            }
            if p.total_price is Some {
                lemma_tags_element("IT"@, p.total_price->0.round_dp(2).normalize().plain(), name);
            }
            lemma_tags_concat(u, t, name);
        },
    }
}

/// How often a name occurs for each position.
spec fn each(name: Seq<char>) -> nat {
    if name == "Item"@ {
        1
    } else {
        0
    }
}

proof fn lemma_tags_item(p: PositionView, id: nat, style: Style, name: Seq<char>)
    requires
        special(name),
        settled_in(name, style),
    ensures
        tags(item_events(p, id, style), name) == each(name),
{
    lemma_special(name);
    lemma_tags_item_numbers(p, style, name);
    let t = item_description(p, style);
    if !(style is Offer) {
        lemma_tags_item_texts(p, name);
    }
    let a = numbered_tag("Item"@, id, p.oz);
    lemma_tags_one(a, name);
    lemma_tags_concat(seq![a] + item_numbers(p, style) + t, seq![XmlItemView::End("Item"@)], name);
    lemma_tags_concat(seq![a] + item_numbers(p, style), t, name);
    lemma_tags_concat(seq![a], item_numbers(p, style), name);
    lemma_tags_one(XmlItemView::End("Item"@), name);
}

proof fn lemma_tags_items(all: Seq<PositionView>, n: nat, id: nat, style: Style, name: Seq<char>)
    requires
        n <= all.len(),
        special(name),
        settled_in(name, style),
    ensures
        tags(items_events(all, n, id, style), name) == n * each(name),
    decreases n,
{
    if n > 0 {
        lemma_tags_items(all, (n - 1) as nat, id, style, name);
        lemma_tags_item(all[n - 1], id + n, style, name);
        lemma_tags_concat(
            items_events(all, (n - 1) as nat, id, style),
            item_events(all[n - 1], id + n, style),
            name,
        );
        assert((n - 1) * each(name) + each(name) == n * each(name)) by (nonlinear_arith)
            requires
                n > 0,
        ;
    } else {
        assert(n * each(name) == 0) by (nonlinear_arith)
            requires
                n == 0,
        ;
    }
}

proof fn lemma_tags_heading(n: NodeView, id: nat, style: Style, name: Seq<char>)
    requires
        special(name),
        settled_in(name, style),
    ensures
        tags(heading_opening(n, id, style), name) == 0,
        tags(heading_closing(n, id, style), name) == n.positions.len() * each(name),
{
    lemma_special(name);
    reveal(heading_opening);
    reveal(heading_closing);
    let title = crate::gaeb_xml::title_in(n.title, style);
    let a = numbered_tag("BoQCtgy"@, id, n.oz);
    lemma_tags_one(a, name);
    lemma_tags_paragraph(title, name);
    lemma_tags_wrapped(start_tag("LblTx"@), paragraph(title), XmlItemView::End("LblTx"@), name);
    lemma_tags_one(start_tag("LblTx"@), name);
    lemma_tags_one(start_tag("BoQBody"@), name);
    lemma_tags_concat(seq![a] + rich_text("LblTx"@, title), seq![start_tag("BoQBody"@)], name);
    lemma_tags_concat(seq![a], rich_text("LblTx"@, title), name);
    let all = n.positions;
    lemma_tags_items(all, all.len(), id, style, name);
    lemma_tags_wrapped(
        start_tag("Itemlist"@),
        items_events(all, all.len(), id, style),
        XmlItemView::End("Itemlist"@),
        name,
    );
    lemma_tags_one(start_tag("Itemlist"@), name);
    let x = XmlItemView::End("BoQBody"@);
    let y = XmlItemView::End("BoQCtgy"@);
    lemma_tags_two(x, y, name);
    lemma_tags_one(x, name);
    lemma_tags_one(y, name);
    lemma_tags_concat(itemlist(all, id, style), seq![x, y], name);
    if all.len() == 0 {
        assert(all.len() * each(name) == 0) by (nonlinear_arith)
            requires
                all.len() == 0,
        ;
    }
}

proof fn lemma_tags_tree(nodes: Seq<NodeView>, id: nat, style: Style, name: Seq<char>)
    requires
        special(name),
        settled_in(name, style),
    ensures
        tags(tree_events(nodes, id, style), name) == positions_of(nodes).len() * each(name),
    decreases nodes,
{
    let k = each(name);
    if nodes.len() > 0 {
        let n = nodes.last();
        let at = id + crate::gaeb_xml::tree_size(nodes.drop_last()) + 1;
        let a = tree_events(nodes.drop_last(), id, style);
        let b = heading_opening(n, at, style);
        let c = tree_events(n.children, at, style);
        let d = heading_closing(n, at + crate::gaeb_xml::tree_size(n.children), style);
        lemma_tags_tree(nodes.drop_last(), id, style, name);
        lemma_tags_tree(n.children, at, style, name);
        lemma_tags_heading(n, at, style, name);
        lemma_tags_heading(n, at + crate::gaeb_xml::tree_size(n.children), style, name);
        lemma_tags_concat(a + b + c, d, name);
        lemma_tags_concat(a + b, c, name);
        lemma_tags_concat(a, b, name);
        let x = positions_of(nodes.drop_last()).len();
        let y = n.positions.len();
        let z = positions_of(n.children).len();
        assert(x * k + y * k + z * k == (x + y + z) * k) by (nonlinear_arith);
    } else {
        assert(positions_of(nodes).len() == 0);
        assert(0 * k == 0);
    }
}

proof fn lemma_tags_info(moment: MomentView, name: Seq<char>)
    requires
        special(name),
    ensures
        tags(info_events(moment), name) == 0,
{
    lemma_special(name);
    reveal(info_events);
    let a = seq![start_tag("GAEBInfo"@)];
    let b = a + element("Version"@, "3.3"@);
    let c = b + element("VersDate"@, "2021-05"@);
    let d = c + element("Date"@, moment.iso_date());
    let e = d + element("Time"@, moment.iso_time());
    let f = e + element("ProgSystem"@, "gaeb-toolkit"@);
    let g = f + element("ProgName"@, "gaeb-toolkit"@);
    let h = g + element("Certific"@, "not certified"@);
    lemma_tags_one(start_tag("GAEBInfo"@), name);
    lemma_tags_element("Version"@, "3.3"@, name);
    lemma_tags_element("VersDate"@, "2021-05"@, name);
    lemma_tags_element("Date"@, moment.iso_date(), name);
    lemma_tags_element("Time"@, moment.iso_time(), name);
    lemma_tags_element("ProgSystem"@, "gaeb-toolkit"@, name);
    lemma_tags_element("ProgName"@, "gaeb-toolkit"@, name);
    lemma_tags_element("Certific"@, "not certified"@, name);
    lemma_tags_one(XmlItemView::End("GAEBInfo"@), name);
    lemma_tags_concat(a, element("Version"@, "3.3"@), name);
    lemma_tags_concat(b, element("VersDate"@, "2021-05"@), name);
    lemma_tags_concat(c, element("Date"@, moment.iso_date()), name);
    lemma_tags_concat(d, element("Time"@, moment.iso_time()), name);
    lemma_tags_concat(e, element("ProgSystem"@, "gaeb-toolkit"@), name);
    lemma_tags_concat(f, element("ProgName"@, "gaeb-toolkit"@), name);
    lemma_tags_concat(g, element("Certific"@, "not certified"@), name);
    lemma_tags_concat(h, seq![XmlItemView::End("GAEBInfo"@)], name);
}

proof fn lemma_tags_project(boq: BoqView, name: Seq<char>)
    requires
        special(name),
    ensures
        tags(project_events(boq), name) == 0,
{
    lemma_special(name);
    reveal(project_events);
    let number = crate::gaeb_xml::project_number_of(boq);
    let label = crate::gaeb_xml::project_label_of(boq);
    let currency = crate::gaeb_xml::currency_name(boq.currency);
    let a = seq![start_tag("PrjInfo"@)];
    let b = a + element("NamePrj"@, number);
    let c = b + element("LblPrj"@, label);
    let d = c + element("Cur"@, boq.currency);
    let e = d + element("CurLbl"@, currency);
    lemma_tags_one(start_tag("PrjInfo"@), name);
    lemma_tags_element("NamePrj"@, number, name);
    lemma_tags_element("LblPrj"@, label, name);
    lemma_tags_element("Cur"@, boq.currency, name);
    lemma_tags_element("CurLbl"@, currency, name);
    lemma_tags_one(XmlItemView::End("PrjInfo"@), name);
    lemma_tags_concat(a, element("NamePrj"@, number), name);
    lemma_tags_concat(b, element("LblPrj"@, label), name);
    lemma_tags_concat(c, element("Cur"@, boq.currency), name);
    lemma_tags_concat(d, element("CurLbl"@, currency), name);
    lemma_tags_concat(e, seq![XmlItemView::End("PrjInfo"@)], name);
}

proof fn lemma_tags_award(boq: BoqView, phase: Seq<char>, name: Seq<char>)
    requires
        special(name),
    ensures
        tags(award_events(boq, phase), name) == 0,
{
    lemma_special(name);
    reveal(award_events);
    let currency = crate::gaeb_xml::currency_name(boq.currency);
    let x = start_tag("AddText"@);
    let y = start_tag("OutlineAddText"@);
    let r1 = seq![x, y];
    let r2 = r1 + element("span"@, "Vorbemerkungen"@);
    let r3 = r2 + seq![XmlItemView::End("OutlineAddText"@)];
    let r4 = r3 + text_block("DetailAddText"@, boq.preamble);
    lemma_tags_two(x, y, name);
    lemma_tags_one(x, name);
    lemma_tags_one(y, name);
    lemma_tags_element("span"@, "Vorbemerkungen"@, name);
    lemma_tags_one(XmlItemView::End("OutlineAddText"@), name);
    lemma_tags_text_block("DetailAddText"@, boq.preamble, name);
    lemma_tags_one(XmlItemView::End("AddText"@), name);
    lemma_tags_concat(r1, element("span"@, "Vorbemerkungen"@), name);
    lemma_tags_concat(r2, seq![XmlItemView::End("OutlineAddText"@)], name);
    lemma_tags_concat(r3, text_block("DetailAddText"@, boq.preamble), name);
    lemma_tags_concat(r4, seq![XmlItemView::End("AddText"@)], name);
    let remarks = if trim(boq.preamble).len() > 0 {
        r4 + seq![XmlItemView::End("AddText"@)]
    } else {
        seq![]
    };
    assert(tags(remarks, name) == 0);
    let a = seq![start_tag("Award"@)];
    let b = a + element("DP"@, phase);
    let c = b + seq![start_tag("AwardInfo"@)];
    let d = c + element("Cur"@, boq.currency);
    let e = d + element("CurLbl"@, currency);
    let f = e + seq![XmlItemView::End("AwardInfo"@)];
    lemma_tags_one(start_tag("Award"@), name);
    lemma_tags_element("DP"@, phase, name);
    lemma_tags_one(start_tag("AwardInfo"@), name);
    lemma_tags_element("Cur"@, boq.currency, name);
    lemma_tags_element("CurLbl"@, currency, name);
    lemma_tags_one(XmlItemView::End("AwardInfo"@), name);
    lemma_tags_concat(a, element("DP"@, phase), name);
    lemma_tags_concat(b, seq![start_tag("AwardInfo"@)], name);
    lemma_tags_concat(c, element("Cur"@, boq.currency), name);
    lemma_tags_concat(d, element("CurLbl"@, currency), name);
    lemma_tags_concat(e, seq![XmlItemView::End("AwardInfo"@)], name);
    lemma_tags_concat(f, remarks, name);
}

proof fn lemma_tags_level(label: Seq<char>, name: Seq<char>)
    requires
        special(name),
    ensures
        tags(level_events(label), name) == 0,
{
    lemma_special(name);
    let a = seq![start_tag("BoQBkdn"@)];
    let b = a + element("Type"@, "BoQLevel"@);
    let c = b + element("LblBoQBkdn"@, label);
    let d = c + element("Length"@, "2"@);
    let e = d + element("Num"@, "Yes"@);
    lemma_tags_one(start_tag("BoQBkdn"@), name);
    lemma_tags_element("Type"@, "BoQLevel"@, name);
    lemma_tags_element("LblBoQBkdn"@, label, name);
    lemma_tags_element("Length"@, "2"@, name);
    lemma_tags_element("Num"@, "Yes"@, name);
    lemma_tags_one(XmlItemView::End("BoQBkdn"@), name);
    lemma_tags_concat(a, element("Type"@, "BoQLevel"@), name);
    lemma_tags_concat(b, element("LblBoQBkdn"@, label), name);
    lemma_tags_concat(c, element("Length"@, "2"@), name);
    lemma_tags_concat(d, element("Num"@, "Yes"@), name);
    lemma_tags_concat(e, seq![XmlItemView::End("BoQBkdn"@)], name);
}

proof fn lemma_tags_boq_info(boq: BoqView, name: Seq<char>)
    requires
        special(name),
    ensures
        tags(boq_info_events(boq), name) == 0,
{
    lemma_special(name);
    reveal(boq_info_events);
    let label = crate::gaeb_xml::project_label_of(boq);
    let a = seq![start_tag("BoQInfo"@)];
    let b = a + element("Name"@, "01"@);
    let c = b + element("LblBoQ"@, label);
    let d = c + element("OutlCompl"@, "AllTxt"@);
    let e = d + level_events("Bereich"@);
    let f = e + level_events("Titel"@);
    let g = f + level_events("Untertitel"@);
    let h = g + seq![start_tag("BoQBkdn"@)];
    let i = h + element("Type"@, "Item"@);
    let j = i + element("Length"@, "3"@);
    let k = j + element("Num"@, "Yes"@);
    let x = XmlItemView::End("BoQBkdn"@);
    let y = XmlItemView::End("BoQInfo"@);
    lemma_tags_one(start_tag("BoQInfo"@), name);
    lemma_tags_element("Name"@, "01"@, name);
    lemma_tags_element("LblBoQ"@, label, name);
    lemma_tags_element("OutlCompl"@, "AllTxt"@, name);
    lemma_tags_level("Bereich"@, name);
    lemma_tags_level("Titel"@, name);
    lemma_tags_level("Untertitel"@, name);
    lemma_tags_one(start_tag("BoQBkdn"@), name);
    lemma_tags_element("Type"@, "Item"@, name);
    lemma_tags_element("Length"@, "3"@, name);
    lemma_tags_element("Num"@, "Yes"@, name);
    lemma_tags_two(x, y, name);
    lemma_tags_one(x, name);
    lemma_tags_one(y, name);
    lemma_tags_concat(a, element("Name"@, "01"@), name);
    lemma_tags_concat(b, element("LblBoQ"@, label), name);
    lemma_tags_concat(c, element("OutlCompl"@, "AllTxt"@), name);
    lemma_tags_concat(d, level_events("Bereich"@), name);
    lemma_tags_concat(e, level_events("Titel"@), name);
    lemma_tags_concat(f, level_events("Untertitel"@), name);
    lemma_tags_concat(g, seq![start_tag("BoQBkdn"@)], name);
    lemma_tags_concat(h, element("Type"@, "Item"@), name);
    lemma_tags_concat(i, element("Length"@, "3"@), name);
    lemma_tags_concat(j, element("Num"@, "Yes"@), name);
    lemma_tags_concat(k, seq![x, y], name);
}

proof fn lemma_tags_document(
    boq: BoqView,
    moment: MomentView,
    namespace: Seq<char>,
    phase: Seq<char>,
    style: Style,
    name: Seq<char>,
)
    requires
        special(name),
        settled_in(name, style),
    ensures
        tags(document_events(boq, moment, namespace, phase, style), name) == positions_of(
            boq.roots,
        ).len() * each(name),
{
    lemma_special(name);
    let root = XmlItemView::Start("GAEB"@, seq![("xmlns"@, namespace)]);
    let bill = XmlItemView::Start("BoQ"@, seq![("ID"@, crate::gaeb_xml::id_text(1))]);
    let a = seq![XmlItemView::Declaration, root];
    let b = a + info_events(moment);
    let c = b + project_events(boq);
    let d = c + award_events(boq, phase);
    let e = d + seq![bill];
    let f = e + boq_info_events(boq);
    let g = f + seq![start_tag("BoQBody"@)];
    let h = g + tree_events(boq.roots, 1, style);
    let w = XmlItemView::End("BoQBody"@);
    let x = XmlItemView::End("BoQ"@);
    let y = XmlItemView::End("Award"@);
    let z = XmlItemView::End("GAEB"@);
    lemma_tags_two(XmlItemView::Declaration, root, name);
    lemma_tags_one(XmlItemView::Declaration, name);
    lemma_tags_one(root, name);
    lemma_tags_info(moment, name);
    lemma_tags_project(boq, name);
    lemma_tags_award(boq, phase, name);
    lemma_tags_one(bill, name);
    lemma_tags_boq_info(boq, name);
    lemma_tags_one(start_tag("BoQBody"@), name);
    lemma_tags_tree(boq.roots, 1, style, name);
    lemma_tags_two(w, x, name);
    lemma_tags_two(y, z, name);
    lemma_tags_one(w, name);
    lemma_tags_one(x, name);
    lemma_tags_one(y, name);
    lemma_tags_one(z, name);
    lemma_tags_concat(a, info_events(moment), name);
    lemma_tags_concat(b, project_events(boq), name);
    lemma_tags_concat(c, award_events(boq, phase), name);
    lemma_tags_concat(d, seq![bill], name);
    lemma_tags_concat(e, boq_info_events(boq), name);
    lemma_tags_concat(f, seq![start_tag("BoQBody"@)], name);
    lemma_tags_concat(g, tree_events(boq.roots, 1, style), name);
    lemma_tags_concat(h, seq![w, x], name);
    lemma_tags_concat(h + seq![w, x], seq![y, z], name);
    assert(document_events(boq, moment, namespace, phase, style) =~= h + seq![w, x] + seq![y, z]);
}

/// Every position of a bill becomes an item of its own, also where several have the same
/// number.
pub proof fn law_positions_stay_apart(
    boq: BoqView,
    moment: MomentView,
    namespace: Seq<char>,
    phase: Seq<char>,
    style: Style,
)
    ensures
        tags(document_events(boq, moment, namespace, phase, style), "Item"@) == positions_of(
            boq.roots,
        ).len(),
{
    lemma_tags_document(boq, moment, namespace, phase, style, "Item"@);
    let n = positions_of(boq.roots).len();
    assert(n * 1 == n);
}

/// A request states no prices.
pub proof fn law_request_without_prices(
    boq: BoqView,
    moment: MomentView,
    namespace: Seq<char>,
    phase: Seq<char>,
)
    ensures
        tags(document_events(boq, moment, namespace, phase, Style::Request), "UP"@) == 0,
        tags(document_events(boq, moment, namespace, phase, Style::Request), "IT"@) == 0,
{
    lemma_special("UP"@);
    lemma_special("IT"@);
    lemma_tags_document(boq, moment, namespace, phase, Style::Request, "UP"@);
    lemma_tags_document(boq, moment, namespace, phase, Style::Request, "IT"@);
    let n = positions_of(boq.roots).len();
    assert(n * 0 == 0);
}

/// An offer repeats neither descriptions nor quantities: an item has its number and its
/// prices only.
pub proof fn law_offer_without_descriptions(
    boq: BoqView,
    moment: MomentView,
    namespace: Seq<char>,
    phase: Seq<char>,
)
    ensures
        ({
            let events = document_events(boq, moment, namespace, phase, Style::Offer);
            &&& tags(events, "Description"@) == 0
            &&& tags(events, "DetailTxt"@) == 0
            &&& tags(events, "OutlineText"@) == 0
            &&& tags(events, "Qty"@) == 0
            &&& tags(events, "QU"@) == 0
        }),
{
    lemma_special("Description"@);
    lemma_special("DetailTxt"@);
    lemma_special("OutlineText"@);
    lemma_special("Qty"@);
    lemma_special("QU"@);
    lemma_tags_document(boq, moment, namespace, phase, Style::Offer, "Description"@);
    lemma_tags_document(boq, moment, namespace, phase, Style::Offer, "DetailTxt"@);
    lemma_tags_document(boq, moment, namespace, phase, Style::Offer, "OutlineText"@);
    lemma_tags_document(boq, moment, namespace, phase, Style::Offer, "Qty"@);
    lemma_tags_document(boq, moment, namespace, phase, Style::Offer, "QU"@);
    let n = positions_of(boq.roots).len();
    assert(n * 0 == 0);
}

proof fn lemma_together(a: Seq<PositionView>, b: Seq<PositionView>)
    ensures
        (a + b).to_multiset() == a.to_multiset().add(b.to_multiset()),
{
    vstd::seq_lib::lemma_multiset_commutative(a, b);
}

/// The positions of a tree in which one heading was exchanged.
proof fn lemma_exchanged(all: Seq<NodeView>, at: int, node: NodeView)
    requires
        0 <= at < all.len(),
    ensures
        positions_of(all.update(at, node)).to_multiset() == positions_of(
            all.take(at),
        ).to_multiset().add(node.positions.to_multiset()).add(
            positions_of(node.children).to_multiset(),
        ).add(positions_of(all.skip(at + 1)).to_multiset()),
{
    let front = all.take(at);
    let back = all.skip(at + 1);
    assert(all.update(at, node) =~= front.push(node) + back);
    lemma_positions_concat(front.push(node), back);
    assert(front.push(node).drop_last() =~= front);
    let own = positions_of(front) + node.positions;
    lemma_together(own + positions_of(node.children), positions_of(back));
    lemma_together(own, positions_of(node.children));
    lemma_together(positions_of(front), node.positions);
}

proof fn lemma_added(before: Seq<PositionView>, p: PositionView)
    ensures
        before.push(p).to_multiset() == before.to_multiset().insert(p),
{
    broadcast use vstd::seq_lib::group_to_multiset_ensures;

}

/// An empty heading at the end changes no position.
proof fn lemma_new_heading(nodes: Seq<NodeView>, node: NodeView)
    requires
        node.positions.len() == 0,
        node.children.len() == 0,
    ensures
        positions_of(nodes.push(node)) == positions_of(nodes),
{
    assert(nodes.push(node).drop_last() =~= nodes);
    assert(positions_of(node.children) =~= Seq::<PositionView>::empty());
    assert(positions_of(nodes.push(node)) =~= positions_of(nodes));
}

proof fn lemma_heading_bound(nodes: Seq<NodeView>, oz: Seq<char>)
    ensures
        heading_index(nodes, oz) <= nodes.len(),
    decreases nodes.len(),
{
    if nodes.len() > 0 && nodes[0].oz != oz {
        lemma_heading_bound(nodes.skip(1), oz);
    }
}

/// What a change does to the positions of a tree.
pub open spec fn positions_after(before: Multiset<PositionView>, change: ChangeView) -> Multiset<
    PositionView,
> {
    match change {
        ChangeView::Add(p) => before.insert(p),
        _ => before,
    }
}

proof fn lemma_placed(nodes: Seq<NodeView>, path: Seq<Seq<char>>, index: nat, change: ChangeView)
    requires
        index < path.len(),
    ensures
        positions_of(placed(nodes, path, index, change)).to_multiset() == positions_after(
            positions_of(nodes).to_multiset(),
            change,
        ),
    decreases path.len() - index,
{
    let oz = join(path.take(index as int + 1), "."@);
    let at = heading_index(nodes, oz) as int;
    let all = with_heading(nodes, oz, index + 1);
    lemma_heading_bound(nodes, oz);
    if at >= nodes.len() {
        lemma_new_heading(nodes, NodeView { oz, level: index + 1, ..empty_node() });
    }
    let old_node = all[at];
    assert(all.update(at, old_node) =~= all);
    lemma_exchanged(all, at, old_node);
    if index + 1 >= path.len() {
        lemma_exchanged(all, at, changed(old_node, change));
        if let ChangeView::Add(p) = change {
            lemma_added(old_node.positions, p);
        }
    } else {
        lemma_placed(old_node.children, path, index + 1, change);
        lemma_exchanged(
            all,
            at,
            NodeView { children: placed(old_node.children, path, index + 1, change), ..old_node },
        );
    }
    assert(positions_of(placed(nodes, path, index, change)).to_multiset() =~= positions_after(
        positions_of(nodes).to_multiset(),
        change,
    ));
}

/// The positions that the items among the first `n` rows become, those that have a
/// heading to stand under.
pub open spec fn positions_in(rows: Seq<RowView>, n: nat) -> Multiset<PositionView>
    decreases n,
{
    if n == 0 {
        Multiset::empty()
    } else {
        let before = positions_in(rows, (n - 1) as nat);
        match rows[n - 1] {
            RowView::Item(item) => if split(item.oz, '.').len() < 2 {
                before
            } else {
                before.insert(position_of_item(item))
            },
            RowView::Category { .. } => before,
        }
    }
}

/// The bill of an exchange file has the items of the file as its positions, each once
/// and with its number, quantity, unit, prices and texts.
pub proof fn law_items_become_positions(rows: Seq<RowView>, n: nat)
    requires
        n <= rows.len(),
    ensures
        positions_of(outline(rows, n)).to_multiset() == positions_in(rows, n),
    decreases n,
{
    if n == 0 {
        assert(positions_of(outline(rows, 0)) =~= Seq::<PositionView>::empty());
        assert(Seq::<PositionView>::empty().to_multiset() =~= Multiset::<PositionView>::empty()) by {
            broadcast use vstd::seq_lib::group_to_multiset_ensures;

        }
    } else {
        law_items_become_positions(rows, (n - 1) as nat);
        let nodes = outline(rows, (n - 1) as nat);
        match rows[n - 1] {
            RowView::Category { oz, title, level: _ } => {
                crate::outline::lemma_split_len(oz, '.');
                let change = if trim(title).len() == 0 {
                    ChangeView::Present
                } else {
                    ChangeView::Title(crate::outline::on_one_line(title))
                };
                lemma_placed(nodes, split(oz, '.'), 0, change);
            },
            RowView::Item(item) => {
                let path = split(item.oz, '.');
                if path.len() >= 2 {
                    lemma_placed(
                        nodes,
                        path.drop_last(),
                        0,
                        ChangeView::Add(position_of_item(item)),
                    );
                }
            },
        }
    }
}

/// A position that was read is filed once, and no other is touched.
pub proof fn law_filed_once(
    nodes: Seq<NodeView>,
    path: Seq<Seq<char>>,
    index: nat,
    headings: Seq<HeadingView>,
    page: usize,
    position: PositionView,
)
    requires
        index < path.len(),
    ensures
        positions_of(filed(nodes, path, index, headings, page, position)).to_multiset()
            == positions_of(nodes).to_multiset().insert(position),
    decreases path.len() - index,
{
    let oz = join(path.take(index as int + 1), "."@);
    let heading = heading_of(headings, oz);
    let at = heading_index(nodes, oz) as int;
    let all = with_read_heading(nodes, oz, index + 1, heading, page);
    lemma_heading_bound(nodes, oz);
    if at >= nodes.len() {
        lemma_new_heading(nodes, all.last());
        assert(all.drop_last() =~= nodes);
        assert(all =~= nodes.push(all.last()));
    }
    let old_node = all[at];
    assert(all.update(at, old_node) =~= all);
    lemma_exchanged(all, at, old_node);
    let node = titled(old_node, heading);
    if index + 1 >= path.len() {
        lemma_added(node.positions, position);
        lemma_exchanged(
            all,
            at,
            NodeView { positions: node.positions.push(position), ..node },
        );
    } else {
        law_filed_once(node.children, path, index + 1, headings, page, position);
        lemma_exchanged(
            all,
            at,
            NodeView {
                children: filed(node.children, path, index + 1, headings, page, position),
                ..node
            },
        );
    }
    assert(positions_of(filed(nodes, path, index, headings, page, position)).to_multiset()
        =~= positions_of(nodes).to_multiset().insert(position));
}

/// Offers are refused while an item has no unit price or no total.
pub proof fn law_offers_need_prices(document: DocumentView, moment: MomentView, i: int)
    requires
        0 <= i < items_of(document.rows).len(),
        items_of(document.rows)[i].unit_price is None || items_of(document.rows)[i].total_price is None,
    ensures
        p84(document, moment) is Err,
        d84(document, moment) is Err,
{
    assert(!fully_priced(items_of(document.rows)));
}

/// A number that does not fit into the nine columns of a D84, or is built unlike the
/// others, is neither cut nor renumbered: the offer is refused.
pub proof fn law_d84_refuses_numbers(document: DocumentView, moment: MomentView, i: int)
    requires
        0 <= i < items_of(document.rows).len(),
        ({
            let items = items_of(document.rows);
            let oz = items[i].oz;
            ||| total(lengths_of(oz)) > 9
            ||| lengths_of(oz).len() > 6
            ||| !numeric(oz)
            ||| lengths_of(oz) != lengths_of(items[0].oz)
        }),
    ensures
        d84(document, moment) is Err,
{
    let items = items_of(document.rows);
    assert(shared_lengths(items) is Err) by {
        assert(lengths_of(items[i].oz) != lengths_of(items[0].oz) || !numeric(items[i].oz) || total(
            lengths_of(items[0].oz),
        ) > 9 || lengths_of(items[0].oz).len() > 6);
    }
}

/// How often a text occurs.
pub open spec fn count_of(v: Seq<Seq<char>>, w: Seq<char>) -> nat
    decreases v.len(),
{
    if v.len() == 0 {
        0
    } else {
        count_of(v.drop_last(), w) + if v.last() == w {
            1nat
        } else {
            0nat
        }
    }
}

/// How many positions have a number.
pub open spec fn numbered(all: Seq<PositionView>, oz: Seq<char>) -> nat
    decreases all.len(),
{
    if all.len() == 0 {
        0
    } else {
        numbered(all.drop_last(), oz) + if all.last().oz == oz {
            1nat
        } else {
            0nat
        }
    }
}

proof fn lemma_count_concat(a: Seq<Seq<char>>, b: Seq<Seq<char>>, w: Seq<char>)
    ensures
        count_of(a + b, w) == count_of(a, w) + count_of(b, w),
    decreases b.len(),
{
    if b.len() == 0 {
        assert(a + b =~= a);
    } else {
        assert((a + b).drop_last() =~= a + b.drop_last());
        lemma_count_concat(a, b.drop_last(), w);
    }
}

proof fn lemma_count_one(x: Seq<char>, w: Seq<char>)
    ensures
        count_of(seq![x], w) == if x == w {
            1nat
        } else {
            0nat
        },
{
    assert(seq![x].drop_last() =~= Seq::<Seq<char>>::empty());
    assert(count_of(seq![x].drop_last(), w) == 0);
}

proof fn lemma_numbered(all: Seq<PositionView>, oz: Seq<char>)
    ensures
        numbered(all, oz) > 0 <==> exists|i: int| 0 <= i < all.len() && (#[trigger] all[i]).oz == oz,
    decreases all.len(),
{
    if all.len() > 0 {
        let front = all.drop_last();
        lemma_numbered(front, oz);
        if numbered(front, oz) > 0 {
            let i = choose|i: int| 0 <= i < front.len() && (#[trigger] front[i]).oz == oz;
            assert(all[i].oz == oz);
        }
        if all.last().oz == oz {
            assert(all[all.len() - 1].oz == oz);
        }
        if exists|i: int| 0 <= i < all.len() && (#[trigger] all[i]).oz == oz {
            let i = choose|i: int| 0 <= i < all.len() && (#[trigger] all[i]).oz == oz;
            if i < front.len() {
                assert(front[i].oz == oz);
            }
        }
    }
}

/// The first letters of the warnings tell them apart.
proof fn lemma_kinds_of_warnings(a: Seq<char>, b: Seq<char>, c: Seq<char>)
    ensures
        "Doppelte OZ: "@ + a != "Unvollständige Preiszeile: "@ + b,
        "Doppelte OZ: "@ + a != "Preisabweichung "@ + c,
        "Unvollständige Preiszeile: "@ + b != "Preisabweichung "@ + c,
{
    reveal_strlit("Doppelte OZ: ");
    reveal_strlit("Unvollständige Preiszeile: ");
    reveal_strlit("Preisabweichung ");
    assert(("Doppelte OZ: "@ + a)[0] == 'D');
    assert(("Unvollständige Preiszeile: "@ + b)[0] == 'U');
    assert(("Preisabweichung "@ + c)[0] == 'P');
}

proof fn lemma_same_number(a: Seq<char>, b: Seq<char>)
    requires
        "Doppelte OZ: "@ + a == "Doppelte OZ: "@ + b,
    ensures
        a == b,
{
    let head = "Doppelte OZ: "@;
    assert((head + a).skip(head.len() as int) =~= a);
    assert((head + b).skip(head.len() as int) =~= b);
}

/// What is said of the total of a position, if it is off by more than two hundredths.
pub open spec fn gap_warning(p: PositionView) -> Option<Seq<char>> {
    if p.quantity is Some && p.unit_price is Some && p.total_price is Some {
        match price_gap(p.quantity->0, p.unit_price->0, p.total_price->0) {
            Some(gap) => if gap.at_most(Dec { mantissa: 2, scale: 2 }) {
                None
            } else {
                Some("Preisabweichung "@ + p.oz + ": "@ + gap.plain())
            },
            None => None,
        }
    } else {
        None
    }
}

/// The warnings about a position in their order: that its number is doubled, that it is
/// incomplete, and that its total is off.
proof fn lemma_warnings_of_one(before: Seq<PositionView>, p: PositionView)
    requires
        position_warnings(before, p) is Some,
    ensures
        ({
            let here = position_warnings(before, p)->0;
            &&& forall|oz: Seq<char>|
                count_of(here, #[trigger] ("Doppelte OZ: "@ + oz)) == if oz == p.oz && numbered(
                    before,
                    oz,
                ) > 0 {
                    1nat
                } else {
                    0nat
                }
            &&& forall|w: Seq<char>|
                "Preisabweichung "@.is_prefix_of(w) ==> (#[trigger] here.contains(w)
                    <==> gap_warning(p) == Some(w))
        }),
{
    let here = position_warnings(before, p)->0;
    lemma_numbered(before, p.oz);
    let none = Seq::<Seq<char>>::empty();
    let double = if numbered(before, p.oz) > 0 {
        seq!["Doppelte OZ: "@ + p.oz]
    } else {
        none
    };
    let incomplete = if !said_to_be_omitted(p) && (p.quantity is None || p.unit_price is None) {
        seq!["Unvollständige Preiszeile: "@ + p.oz]
    } else {
        none
    };
    let gap = match gap_warning(p) {
        Some(w) => seq![w],
        None => none,
    };
    assert(here =~= double + incomplete + gap);
    let off = if gap_warning(p) is Some {
        p.oz + ": "@ + price_gap(p.quantity->0, p.unit_price->0, p.total_price->0)->0.plain()
    } else {
        seq![]
    };
    if gap_warning(p) is Some {
        assert(gap_warning(p)->0 =~= "Preisabweichung "@ + off);
    }
    assert forall|oz: Seq<char>|
        count_of(here, #[trigger] ("Doppelte OZ: "@ + oz)) == if oz == p.oz && numbered(before, oz) > 0 {
            1nat
        } else {
            0nat
        } by {
        let w = "Doppelte OZ: "@ + oz;
        lemma_kinds_of_warnings(oz, p.oz, off);
        if w == "Doppelte OZ: "@ + p.oz {
            lemma_same_number(oz, p.oz);
        }
        lemma_count_concat(double + incomplete, gap, w);
        lemma_count_concat(double, incomplete, w);
        lemma_count_one("Doppelte OZ: "@ + p.oz, w);
        lemma_count_one("Unvollständige Preiszeile: "@ + p.oz, w);
        lemma_count_one("Preisabweichung "@ + off, w);
    }
    assert forall|w: Seq<char>| "Preisabweichung "@.is_prefix_of(w) implies (#[trigger] here.contains(
        w,
    ) <==> gap_warning(p) == Some(w)) by {
        reveal_strlit("Preisabweichung ");
        reveal_strlit("Doppelte OZ: ");
        reveal_strlit("Unvollständige Preiszeile: ");
        assert(w[0] == "Preisabweichung "@[0]);
        assert(("Doppelte OZ: "@ + p.oz)[0] == 'D');
        assert(("Unvollständige Preiszeile: "@ + p.oz)[0] == 'U');
        if gap_warning(p) is Some {
            assert(here[here.len() - 1] == gap_warning(p)->0);
        }
    }
}

proof fn lemma_doubled(all: Seq<PositionView>, n: nat, oz: Seq<char>)
    requires
        n <= all.len(),
        bill_warnings(all, n) is Some,
    ensures
        count_of(bill_warnings(all, n)->0, "Doppelte OZ: "@ + oz) == if numbered(
            all.take(n as int),
            oz,
        ) > 0 {
            (numbered(all.take(n as int), oz) - 1) as nat
        } else {
            0nat
        },
    decreases n,
{
    if n > 0 {
        let m = (n - 1) as nat;
        lemma_doubled(all, m, oz);
        lemma_warnings_of_one(all.take(m as int), all[m as int]);
        let here = position_warnings(all.take(m as int), all[m as int])->0;
        lemma_count_concat(bill_warnings(all, m)->0, here, "Doppelte OZ: "@ + oz);
        assert(all.take(n as int).drop_last() =~= all.take(m as int));
        assert(all.take(n as int).last() == all[m as int]);
    } else {
        assert(all.take(0) =~= Seq::<PositionView>::empty());
    }
}

/// A number that several positions have is warned of once for each of them but the first;
/// any other number is not warned of.
pub proof fn law_doubled_number_warned(all: Seq<PositionView>, oz: Seq<char>)
    requires
        bill_warnings(all, all.len()) is Some,
    ensures
        count_of(bill_warnings(all, all.len())->0, "Doppelte OZ: "@ + oz) == if numbered(all, oz) > 0 {
            (numbered(all, oz) - 1) as nat
        } else {
            0nat
        },
{
    lemma_doubled(all, all.len(), oz);
    assert(all.take(all.len() as int) =~= all);
}

proof fn lemma_gaps(all: Seq<PositionView>, n: nat, w: Seq<char>)
    requires
        n <= all.len(),
        bill_warnings(all, n) is Some,
        "Preisabweichung "@.is_prefix_of(w),
    ensures
        (bill_warnings(all, n)->0).contains(w) <==> exists|j: int|
            0 <= j < n && gap_warning(#[trigger] all[j]) == Some(w),
    decreases n,
{
    if n > 0 {
        let m = (n - 1) as nat;
        lemma_gaps(all, m, w);
        lemma_warnings_of_one(all.take(m as int), all[m as int]);
        let before = bill_warnings(all, m)->0;
        let here = position_warnings(all.take(m as int), all[m as int])->0;
        let both = before + here;
        assert(bill_warnings(all, n)->0 == both);
        assert(both.contains(w) <==> before.contains(w) || here.contains(w)) by {
            if before.contains(w) {
                let i = choose|i: int| 0 <= i < before.len() && before[i] == w;
                assert(both[i] == w);
            }
            if here.contains(w) {
                let i = choose|i: int| 0 <= i < here.len() && here[i] == w;
                assert(both[before.len() + i] == w);
            }
            if both.contains(w) {
                let i = choose|i: int| 0 <= i < both.len() && both[i] == w;
                if i < before.len() {
                    assert(before[i] == w);
                } else {
                    assert(here[i - before.len()] == w);
                }
            }
        }
        if gap_warning(all[m as int]) == Some(w) {
            assert(here.contains(w));
        }
    }
}

/// A total is warned of if and only if it is off by more than two hundredths, with the
/// difference.
pub proof fn law_price_gap_warned(all: Seq<PositionView>, w: Seq<char>)
    requires
        bill_warnings(all, all.len()) is Some,
        "Preisabweichung "@.is_prefix_of(w),
    ensures
        (bill_warnings(all, all.len())->0).contains(w) <==> exists|j: int|
            0 <= j < all.len() && gap_warning(#[trigger] all[j]) == Some(w),
{
    lemma_gaps(all, all.len(), w);
}

} // verus!
