//! What a written GAEB DA XML document reads as.

use crate::clock::MomentView;
use crate::decimal::{lemma_digits_len, lemma_pow10_positive, magnitude, numeral, pow10, Dec};
use crate::document::{
    empty_document, empty_item, has_item, retitled, title_at, DocumentView, ItemView, RowView,
};
use crate::gaeb90_export::{items_of, lemma_fraction_digits, price_digits};
use crate::gaeb90_laws::lemma_price_value;
use crate::gaeb_reader::{
    attribute_named, gaeb_events, gaeb_xml, local, point_number, read_until, unread, with_word,
    XmlView,
};
use crate::gaeb_xml::{
    award_events, boq_info_events, currency_name, document_events, heading_closing, heading_opening,
    id_text, info_events, item_description, item_events, item_numbers, item_texts, itemlist,
    items_events, level_events, optional_number, paragraph, paragraphs, project_events, project_label_of,
    project_number_of, rich_text, text_block, title_in, tree_events, tree_size, Style,
};
use crate::model::{BoqView, NodeView, PositionView};
use crate::text::{
    after_last, digits_value, is_digit, is_space, join, lemma_digits, lemma_position_of,
    lemma_replace_absent, lines, trim, trim_start,
};
use crate::title_cleanup::lemma_trim_again;
use crate::tree::{positions_of, written_positions};
use crate::xml::{
    element, open_behind, plain_name, read_attributes, reread, reread_one, start_tag,
    without_blank_ends, XmlEventView, XmlItemView,
};
use vstd::prelude::*;

verus! {

/// What one written event does to the state of the reader.
pub open spec fn step(s: XmlView, item: XmlItemView) -> XmlView {
    match item {
        XmlItemView::Declaration => s,
        XmlItemView::Start(name, attributes) => match s.started(name, read_attributes(attributes)) {
            Ok(after) => after,
            Err(_) => s,
        },
        XmlItemView::Text(text) => if trim(text).len() > 0 {
            s.text(trim(text))
        } else {
            s
        },
        XmlItemView::End(name) => s.ended(name),
    }
}

/// What written events do to the state of the reader.
pub open spec fn run(s: XmlView, items: Seq<XmlItemView>) -> XmlView
    decreases items.len(),
{
    if items.len() == 0 {
        s
    } else {
        run(step(s, items[0]), items.skip(1))
    }
}

proof fn lemma_run_concat(s: XmlView, a: Seq<XmlItemView>, b: Seq<XmlItemView>)
    ensures
        run(s, a + b) == run(run(s, a), b),
    decreases a.len(),
{
    if a.len() == 0 {
        assert(a + b =~= b);
    } else {
        assert((a + b).skip(1) =~= a.skip(1) + b);
        lemma_run_concat(step(s, a[0]), a.skip(1), b);
    }
}

proof fn lemma_run_one(s: XmlView, x: XmlItemView)
    ensures
        run(s, seq![x]) == step(s, x),
{
    assert(seq![x].skip(1) =~= Seq::<XmlItemView>::empty());
    assert(run(step(s, x), seq![x].skip(1)) == step(s, x));
}

proof fn lemma_run_two(s: XmlView, x: XmlItemView, y: XmlItemView)
    ensures
        run(s, seq![x, y]) == step(step(s, x), y),
{
    assert(seq![x, y] =~= seq![x] + seq![y]);
    lemma_run_concat(s, seq![x], seq![y]);
    lemma_run_one(s, x);
    lemma_run_one(step(s, x), y);
}

proof fn lemma_run_three(s: XmlView, x: XmlItemView, y: XmlItemView, z: XmlItemView)
    ensures
        run(s, seq![x, y, z]) == step(step(step(s, x), y), z),
{
    assert(seq![x, y, z] =~= seq![x, y] + seq![z]);
    lemma_run_concat(s, seq![x, y], seq![z]);
    lemma_run_two(s, x, y);
    lemma_run_one(step(step(s, x), y), z);
}

proof fn lemma_open_concat(open: Seq<Seq<char>>, a: Seq<XmlItemView>, b: Seq<XmlItemView>)
    requires
        open_behind(open, a) is Some,
        b.len() > 0 ==> !(b[0] is Text),
    ensures
        open_behind(open, a + b) == open_behind(open_behind(open, a)->0, b),
    decreases a.len(),
{
    if a.len() == 0 {
        assert(a + b =~= b);
    } else {
        assert((a + b).skip(1) =~= a.skip(1) + b);
        match a[0] {
            XmlItemView::Declaration => {
                lemma_open_concat(open, a.skip(1), b);
            },
            XmlItemView::Start(name, attributes) => {
                if a.len() > 1 && a[1] is Text {
                    assert((a + b).skip(2) =~= a.skip(2) + b);
                    lemma_open_concat(open.push(name), a.skip(2), b);
                } else {
                    if a.len() > 1 {
                        assert((a + b)[1] == a[1]);
                    } else if b.len() > 0 {
                        assert((a + b)[1] == b[0]);
                    }
                    lemma_open_concat(open.push(name), a.skip(1), b);
                }
            },
            XmlItemView::Text(_) => {},
            XmlItemView::End(name) => {
                lemma_open_concat(open.drop_last(), a.skip(1), b);
            },
        }
    }
}

// A written event is read as what it was.

proof fn lemma_local(name: Seq<char>)
    requires
        plain_name(name),
    ensures
        local(vstd::utf8::encode_utf8(name)) == name,
{
    vstd::utf8::encode_utf8_valid_utf8(name);
    vstd::utf8::encode_utf8_decode_utf8(name);
    lemma_no_prefix(name);
}

proof fn lemma_no_prefix(name: Seq<char>)
    requires
        forall|i: int| 0 <= i < name.len() ==> #[trigger] name[i] != ':',
    ensures
        after_last(name, ':') == name,
    decreases name.len(),
{
    if name.len() > 0 {
        lemma_no_prefix(name.drop_last());
        assert(name.drop_last().push(name.last()) =~= name);
    }
}

proof fn lemma_blank_is_space(c: char)
    requires
        c == ' ' || c == '\t' || c == '\r' || c == '\n',
    ensures
        is_space(c),
{
}

proof fn lemma_trim_drop_last(s: Seq<char>)
    requires
        s.len() > 0,
        is_space(s.last()),
    ensures
        trim(s.drop_last()) == trim(s),
    decreases s.len(),
{
    if is_space(s[0]) {
        if s.len() == 1 {
            assert(s.skip(1) =~= Seq::<char>::empty());
            assert(s.drop_last() =~= Seq::<char>::empty());
            assert(trim_start(s.skip(1)) =~= Seq::<char>::empty());
        } else {
            assert(s.skip(1).drop_last() =~= s.drop_last().skip(1));
            lemma_trim_drop_last(s.skip(1));
        }
    } else {
        assert(trim_start(s) == s);
        assert(trim_start(s.drop_last()) == s.drop_last());
    }
}

/// White space that the XML reader leaves out is left out by trimming too.
proof fn lemma_trim_blank_ends(s: Seq<char>)
    ensures
        trim(without_blank_ends(s)) == trim(s),
    decreases s.len(),
{
    let blank = |c: char| c == ' ' || c == '\t' || c == '\r' || c == '\n';
    if s.len() > 0 && blank(s[0]) {
        lemma_blank_is_space(s[0]);
        lemma_trim_blank_ends(s.skip(1));
    } else if s.len() > 0 && blank(s.last()) {
        lemma_blank_is_space(s.last());
        lemma_trim_blank_ends(s.drop_last());
        lemma_trim_drop_last(s);
    }
}

proof fn lemma_attributes_read(attributes: Seq<(Seq<char>, Seq<char>)>, n: nat, name: Seq<char>)
    ensures
        attribute_named(read_attributes(attributes), n, name) is Ok,
    decreases attributes.len() - n,
{
    if n < attributes.len() {
        lemma_attributes_read(attributes, n + 1, name);
    }
}

proof fn lemma_read_concat(s: XmlView, a: Seq<XmlEventView>, b: Seq<XmlEventView>, n: nat)
    requires
        read_until(s, a, a.len()) is Ok,
        n <= b.len(),
    ensures
        read_until(s, a + b, a.len() + n) == read_until(read_until(s, a, a.len())->Ok_0, b, n),
    decreases n,
{
    if n == 0 {
        lemma_read_front(s, a, b, a.len());
    } else {
        lemma_read_concat(s, a, b, (n - 1) as nat);
        assert((a + b)[a.len() + n - 1] == b[n - 1]);
        assert((a.len() + n - 1) as nat == a.len() + (n - 1) as nat);
    }
}

proof fn lemma_read_front(s: XmlView, a: Seq<XmlEventView>, b: Seq<XmlEventView>, n: nat)
    requires
        n <= a.len(),
    ensures
        read_until(s, a + b, n) == read_until(s, a, n),
    decreases n,
{
    if n > 0 {
        lemma_read_front(s, a, b, (n - 1) as nat);
        assert((a + b)[n - 1] == a[n - 1]);
    }
}

proof fn lemma_read_one(s: XmlView, item: XmlItemView)
    requires
        item is Start ==> plain_name(item->Start_0),
        item is End ==> plain_name(item->End_0),
    ensures
        read_until(s, reread_one(item), reread_one(item).len()) == Ok::<XmlView, Seq<char>>(
            step(s, item),
        ),
{
    let events = reread_one(item);
    if events.len() > 0 {
        assert(read_until(s, events, 0) == Ok::<XmlView, Seq<char>>(s));
        assert(read_until(s, events, 1) == s.event(events[0]));
    }
    match item {
        XmlItemView::Declaration => {},
        XmlItemView::Start(name, attributes) => {
            lemma_local(name);
            lemma_attributes_read(attributes, 0, "RNoPart"@);
        },
        XmlItemView::Text(text) => {
            lemma_trim_blank_ends(text);
            if events.len() == 0 {
                assert(without_blank_ends(text) =~= Seq::<char>::empty());
                assert(trim(Seq::<char>::empty()) =~= Seq::<char>::empty());
            }
        },
        XmlItemView::End(name) => {
            lemma_local(name);
        },
    }
}

/// Written events that are closed properly can be read, and the reader is led through
/// them.
proof fn lemma_read(s: XmlView, open: Seq<Seq<char>>, items: Seq<XmlItemView>)
    requires
        open_behind(open, items) is Some,
        forall|i: int| 0 <= i < open.len() ==> plain_name(#[trigger] open[i]),
    ensures
        read_until(s, reread(items), reread(items).len()) == Ok::<XmlView, Seq<char>>(
            run(s, items),
        ),
    decreases items.len(),
{
    if items.len() > 0 {
        let rest = items.skip(1);
        let first = reread_one(items[0]);
        assert(reread(items) == first + reread(rest));
        assert(run(s, items) == run(step(s, items[0]), rest));
        match items[0] {
            XmlItemView::Declaration => {
                lemma_read_one(s, items[0]);
                lemma_read(step(s, items[0]), open, rest);
                lemma_read_concat(s, first, reread(rest), reread(rest).len());
            },
            XmlItemView::Start(name, attributes) => {
                lemma_read_one(s, items[0]);
                let next = step(s, items[0]);
                if items.len() > 1 && items[1] is Text {
                    assert(rest.skip(1) =~= items.skip(2));
                    assert(rest[0] == items[1]);
                    lemma_read_one(next, items[1]);
                    lemma_read(step(next, items[1]), open.push(name), items.skip(2));
                    lemma_read_concat(
                        next,
                        reread_one(items[1]),
                        reread(items.skip(2)),
                        reread(items.skip(2)).len(),
                    );
                    assert(reread(rest) == reread_one(items[1]) + reread(items.skip(2)));
                    assert(run(next, rest) == run(step(next, items[1]), items.skip(2)));
                } else {
                    lemma_read(next, open.push(name), rest);
                }
                lemma_read_concat(s, first, reread(rest), reread(rest).len());
            },
            XmlItemView::Text(_) => {},
            XmlItemView::End(name) => {
                lemma_read_one(s, items[0]);
                lemma_read(step(s, items[0]), open.drop_last(), rest);
                lemma_read_concat(s, first, reread(rest), reread(rest).len());
            },
        }
    }
}

/// How a plain name is spelled: its length, its first and its last letter.
pub open spec fn spelled(name: Seq<char>, length: nat, first: char, last: char) -> bool {
    plain_name(name) && name.len() == length && name[0] == first && name.last() == last
}

proof fn lemma_header_names()
    ensures
        spelled("GAEB"@, 4, 'G', 'B'),
        spelled("GAEBInfo"@, 8, 'G', 'o'),
        spelled("Version"@, 7, 'V', 'n'),
        spelled("VersDate"@, 8, 'V', 'e'),
        spelled("Date"@, 4, 'D', 'e'),
        spelled("Time"@, 4, 'T', 'e'),
        spelled("ProgSystem"@, 10, 'P', 'm'),
        spelled("ProgName"@, 8, 'P', 'e'),
        spelled("Certific"@, 8, 'C', 'c'),
        spelled("PrjInfo"@, 7, 'P', 'o'),
        spelled("NamePrj"@, 7, 'N', 'j'),
        spelled("LblPrj"@, 6, 'L', 'j'),
        spelled("Cur"@, 3, 'C', 'r'),
        spelled("CurLbl"@, 6, 'C', 'l'),
{
    reveal_strlit("GAEB");
    reveal_strlit("GAEBInfo");
    reveal_strlit("Version");
    reveal_strlit("VersDate");
    reveal_strlit("Date");
    reveal_strlit("Time");
    reveal_strlit("ProgSystem");
    reveal_strlit("ProgName");
    reveal_strlit("Certific");
    reveal_strlit("PrjInfo");
    reveal_strlit("NamePrj");
    reveal_strlit("LblPrj");
    reveal_strlit("Cur");
    reveal_strlit("CurLbl");
}

proof fn lemma_award_names()
    ensures
        spelled("Award"@, 5, 'A', 'd'),
        spelled("DP"@, 2, 'D', 'P'),
        spelled("AwardInfo"@, 9, 'A', 'o'),
        spelled("AddText"@, 7, 'A', 't'),
        spelled("OutlineAddText"@, 14, 'O', 't'),
        spelled("span"@, 4, 's', 'n'),
        spelled("DetailAddText"@, 13, 'D', 't'),
        spelled("p"@, 1, 'p', 'p'),
        spelled("BoQ"@, 3, 'B', 'Q'),
        spelled("BoQInfo"@, 7, 'B', 'o'),
        spelled("Name"@, 4, 'N', 'e'),
        spelled("LblBoQ"@, 6, 'L', 'Q'),
        spelled("OutlCompl"@, 9, 'O', 'l'),
{
    reveal_strlit("Award");
    reveal_strlit("DP");
    reveal_strlit("AwardInfo");
    reveal_strlit("AddText");
    reveal_strlit("OutlineAddText");
    reveal_strlit("span");
    reveal_strlit("DetailAddText");
    reveal_strlit("p");
    reveal_strlit("BoQ");
    reveal_strlit("BoQInfo");
    reveal_strlit("Name");
    reveal_strlit("LblBoQ");
    reveal_strlit("OutlCompl");
}

proof fn lemma_level_names()
    ensures
        spelled("BoQBkdn"@, 7, 'B', 'n'),
        spelled("Type"@, 4, 'T', 'e'),
        spelled("LblBoQBkdn"@, 10, 'L', 'n'),
        spelled("Length"@, 6, 'L', 'h'),
        spelled("Num"@, 3, 'N', 'm'),
        spelled("BoQBody"@, 7, 'B', 'y'),
        spelled("BoQCtgy"@, 7, 'B', 'y'),
        spelled("LblTx"@, 5, 'L', 'x'),
        spelled("Itemlist"@, 8, 'I', 't'),
        spelled("xmlns"@, 5, 'x', 's'),
        spelled("ID"@, 2, 'I', 'D'),
        spelled("RNoPart"@, 7, 'R', 't'),
        "BoQBody"@[3] == 'B',
        "BoQCtgy"@[3] == 'C',
{
    reveal_strlit("BoQBkdn");
    reveal_strlit("Type");
    reveal_strlit("LblBoQBkdn");
    reveal_strlit("Length");
    reveal_strlit("Num");
    reveal_strlit("BoQBody");
    reveal_strlit("BoQCtgy");
    reveal_strlit("LblTx");
    reveal_strlit("Itemlist");
    reveal_strlit("xmlns");
    reveal_strlit("ID");
    reveal_strlit("RNoPart");
}

proof fn lemma_item_names()
    ensures
        spelled("Item"@, 4, 'I', 'm'),
        spelled("Qty"@, 3, 'Q', 'y'),
        spelled("QU"@, 2, 'Q', 'U'),
        spelled("UP"@, 2, 'U', 'P'),
        spelled("IT"@, 2, 'I', 'T'),
        spelled("Description"@, 11, 'D', 'n'),
        spelled("CompleteText"@, 12, 'C', 't'),
        spelled("DetailTxt"@, 9, 'D', 't'),
        spelled("Text"@, 4, 'T', 't'),
        spelled("OutlineText"@, 11, 'O', 't'),
        spelled("OutlTxt"@, 7, 'O', 't'),
        spelled("TextOutlTxt"@, 11, 'T', 't'),
{
    reveal_strlit("Item");
    reveal_strlit("Qty");
    reveal_strlit("QU");
    reveal_strlit("UP");
    reveal_strlit("IT");
    reveal_strlit("Description");
    reveal_strlit("CompleteText");
    reveal_strlit("DetailTxt");
    reveal_strlit("Text");
    reveal_strlit("OutlineText");
    reveal_strlit("OutlTxt");
    reveal_strlit("TextOutlTxt");
}

/// Events that close all that they open.
pub open spec fn sound(b: Seq<XmlItemView>) -> bool {
    &&& b.len() > 0 ==> !(b[0] is Text)
    &&& forall|open: Seq<Seq<char>>| #[trigger] open_behind(open, b) == Some(open)
}

proof fn lemma_sound_none()
    ensures
        sound(seq![]),
{
}

proof fn lemma_sound_concat(a: Seq<XmlItemView>, b: Seq<XmlItemView>)
    requires
        sound(a),
        sound(b),
    ensures
        sound(a + b),
{
    assert forall|open: Seq<Seq<char>>| #[trigger]
        open_behind(open, a + b) == Some(open) by {
        assert(open_behind(open, a) == Some(open));
        assert(open_behind(open, b) == Some(open));
        lemma_open_concat(open, a, b);
    }
    if a.len() > 0 {
        assert((a + b)[0] == a[0]);
    } else if b.len() > 0 {
        assert((a + b)[0] == b[0]);
    }
}

/// An element with attributes around other events.
pub open spec fn wrapped(
    name: Seq<char>,
    attributes: Seq<(Seq<char>, Seq<char>)>,
    body: Seq<XmlItemView>,
) -> Seq<XmlItemView> {
    seq![XmlItemView::Start(name, attributes)] + body + seq![XmlItemView::End(name)]
}

proof fn lemma_open_start(
    open: Seq<Seq<char>>,
    name: Seq<char>,
    attributes: Seq<(Seq<char>, Seq<char>)>,
)
    requires
        plain_name(name),
        forall|i: int| 0 <= i < attributes.len() ==> plain_name((#[trigger] attributes[i]).0),
    ensures
        open_behind(open, seq![XmlItemView::Start(name, attributes)]) == Some(open.push(name)),
{
    let a = seq![XmlItemView::Start(name, attributes)];
    assert(a.skip(1) =~= Seq::<XmlItemView>::empty());
    assert(open_behind(open.push(name), a.skip(1)) == Some(open.push(name)));
}

proof fn lemma_open_end(open: Seq<Seq<char>>, name: Seq<char>)
    ensures
        open_behind(open.push(name), seq![XmlItemView::End(name)]) == Some(open),
{
    let b = seq![XmlItemView::End(name)];
    assert(open.push(name).drop_last() =~= open);
    assert(b.skip(1) =~= Seq::<XmlItemView>::empty());
    assert(open_behind(open, b.skip(1)) == Some(open));
}

proof fn lemma_sound_wrapped(
    name: Seq<char>,
    attributes: Seq<(Seq<char>, Seq<char>)>,
    body: Seq<XmlItemView>,
)
    requires
        plain_name(name),
        forall|i: int| 0 <= i < attributes.len() ==> plain_name((#[trigger] attributes[i]).0),
        sound(body),
    ensures
        sound(wrapped(name, attributes, body)),
{
    let a = seq![XmlItemView::Start(name, attributes)];
    let b = seq![XmlItemView::End(name)];
    assert forall|open: Seq<Seq<char>>| #[trigger]
        open_behind(open, wrapped(name, attributes, body)) == Some(open) by {
        lemma_open_start(open, name, attributes);
        lemma_open_end(open, name);
        assert(open_behind(open.push(name), body) == Some(open.push(name)));
        lemma_open_concat(open, a, body);
        lemma_open_concat(open, a + body, b);
    }
}

proof fn lemma_sound_element(name: Seq<char>, value: Seq<char>)
    requires
        plain_name(name),
    ensures
        sound(element(name, value)),
{
    let b = element(name, value);
    assert forall|open: Seq<Seq<char>>| #[trigger] open_behind(open, b) == Some(open) by {
        lemma_open_end(open, name);
        assert(b.skip(2) =~= seq![XmlItemView::End(name)]);
    }
}

/// A name that does not start a heading or an item.
pub open spec fn ordinary(name: Seq<char>) -> bool {
    plain_name(name) && name != "Item"@ && name != "BoQCtgy"@
}

/// The state inside of an element.
pub open spec fn opened(s: XmlView, name: Seq<char>) -> XmlView {
    XmlView { elements: s.elements.push(name), gaeb: s.gaeb || name == "GAEB"@, ..s }
}

proof fn lemma_start(s: XmlView, name: Seq<char>, attributes: Seq<(Seq<char>, Seq<char>)>)
    requires
        ordinary(name),
    ensures
        step(s, XmlItemView::Start(name, attributes)) == opened(s, name),
{
}

proof fn lemma_run_wrapped(
    s: XmlView,
    name: Seq<char>,
    attributes: Seq<(Seq<char>, Seq<char>)>,
    body: Seq<XmlItemView>,
)
    ensures
        run(s, wrapped(name, attributes, body)) == run(
            step(s, XmlItemView::Start(name, attributes)),
            body,
        ).ended(name),
{
    let a = seq![XmlItemView::Start(name, attributes)];
    let b = seq![XmlItemView::End(name)];
    lemma_run_one(s, XmlItemView::Start(name, attributes));
    lemma_run_concat(s, a, body);
    lemma_run_concat(s, a + body, b);
    lemma_run_one(run(s, a + body), XmlItemView::End(name));
}

/// A text does not leave the element that it stands in.
proof fn lemma_text_stays(s: XmlView, value: Seq<char>)
    ensures
        step(s, XmlItemView::Text(value)).elements == s.elements,
        step(s, XmlItemView::Text(value)).categories == s.categories,
        step(s, XmlItemView::Text(value)).category == s.category,
        step(s, XmlItemView::Text(value)).gaeb == s.gaeb,
{
}

proof fn lemma_run_element(s: XmlView, name: Seq<char>, value: Seq<char>)
    requires
        ordinary(name),
    ensures
        run(s, element(name, value)) == (XmlView {
            elements: s.elements,
            ..step(opened(s, name), XmlItemView::Text(value))
        }),
{
    lemma_run_three(s, start_tag(name), XmlItemView::Text(value), XmlItemView::End(name));
    lemma_start(s, name, seq![]);
    lemma_text_stays(opened(s, name), value);
    assert(s.elements.push(name).drop_last() =~= s.elements);
}

/// A place in a document that is in no item and in no title.
pub open spec fn outside(s: XmlView) -> bool {
    s.gaeb && !s.inside("Item"@) && !s.inside("LblTx"@)
}

/// Events that tell the reader nothing.
pub open spec fn quiet(b: Seq<XmlItemView>) -> bool {
    forall|s: XmlView| outside(s) ==> #[trigger] run(s, b) == s
}

/// Events that close all that they open and tell the reader nothing.
pub open spec fn calm(b: Seq<XmlItemView>) -> bool {
    sound(b) && quiet(b)
}

proof fn lemma_calm_concat(a: Seq<XmlItemView>, b: Seq<XmlItemView>)
    requires
        calm(a),
        calm(b),
    ensures
        calm(a + b),
{
    lemma_sound_concat(a, b);
    assert forall|s: XmlView| outside(s) implies #[trigger] run(s, a + b) == s by {
        lemma_run_concat(s, a, b);
        assert(run(s, a) == s);
        assert(run(s, b) == s);
    }
}

proof fn lemma_contains_push(elements: Seq<Seq<char>>, name: Seq<char>, other: Seq<char>)
    ensures
        elements.push(name).contains(other) == (elements.contains(other) || name == other),
{
    let pushed = elements.push(name);
    if elements.contains(other) {
        let i = choose|i: int| 0 <= i < elements.len() && elements[i] == other;
        assert(pushed[i] == other);
    }
    if name == other {
        assert(pushed[elements.len() as int] == other);
    }
    if pushed.contains(other) {
        let i = choose|i: int| 0 <= i < pushed.len() && pushed[i] == other;
        if i < elements.len() {
            assert(elements[i] == other);
        }
    }
}

proof fn lemma_outside_opened(s: XmlView, name: Seq<char>)
    requires
        outside(s),
        name != "Item"@,
        name != "LblTx"@,
    ensures
        outside(opened(s, name)),
{
    lemma_contains_push(s.elements, name, "Item"@);
    lemma_contains_push(s.elements, name, "LblTx"@);
}

proof fn lemma_calm_wrapped(
    name: Seq<char>,
    attributes: Seq<(Seq<char>, Seq<char>)>,
    body: Seq<XmlItemView>,
)
    requires
        ordinary(name),
        name != "LblTx"@,
        forall|i: int| 0 <= i < attributes.len() ==> plain_name((#[trigger] attributes[i]).0),
        calm(body),
    ensures
        calm(wrapped(name, attributes, body)),
{
    lemma_sound_wrapped(name, attributes, body);
    assert forall|s: XmlView| outside(s) implies #[trigger] run(
        s,
        wrapped(name, attributes, body),
    ) == s by {
        lemma_run_wrapped(s, name, attributes, body);
        lemma_start(s, name, attributes);
        lemma_outside_opened(s, name);
        assert(run(opened(s, name), body) == opened(s, name));
        assert(s.elements.push(name).drop_last() =~= s.elements);
    }
}

/// What the text of an element outside of items and titles tells of the document.
pub open spec fn told(d: DocumentView, name: Seq<char>, value: Seq<char>) -> DocumentView {
    if trim(value).len() == 0 {
        d
    } else {
        XmlView {
            document: d,
            elements: seq![name],
            categories: seq![],
            category: None,
            item: None,
            gaeb: true,
        }.document_text(trim(value))
    }
}

proof fn lemma_element_told(s: XmlView, name: Seq<char>, value: Seq<char>)
    requires
        ordinary(name),
        name != "LblTx"@,
        outside(s),
    ensures
        run(s, element(name, value)) == (XmlView { document: told(s.document, name, value), ..s }),
{
    lemma_run_element(s, name, value);
    lemma_outside_opened(s, name);
    assert(opened(s, name).current() == name);
    assert(seq![name].last() == name);
}

/// A name whose text tells nothing outside of items and titles.
pub open spec fn silent(name: Seq<char>) -> bool {
    ordinary(name) && name != "LblTx"@ && name != "LblPrj"@ && name != "NamePrj"@ && name
        != "LblBoQ"@ && name != "DP"@ && name != "Cur"@
}

proof fn lemma_calm_element(name: Seq<char>, value: Seq<char>)
    requires
        silent(name),
    ensures
        calm(element(name, value)),
{
    lemma_sound_element(name, value);
    assert forall|s: XmlView| outside(s) implies #[trigger] run(s, element(name, value)) == s by {
        lemma_element_told(s, name, value);
        assert(seq![name].last() == name);
    }
}

proof fn lemma_calm_paragraph(value: Seq<char>)
    ensures
        calm(paragraph(value)),
{
    lemma_award_names();
    lemma_header_names();
    lemma_level_names();
    lemma_item_names();
    lemma_calm_element("span"@, value);
    lemma_calm_wrapped("p"@, seq![], element("span"@, value));
}

proof fn lemma_calm_none()
    ensures
        calm(seq![]),
{
}

proof fn lemma_calm_paragraphs(all: Seq<Seq<char>>, n: nat)
    ensures
        calm(paragraphs(all, n)),
    decreases n,
{
    if n == 0 {
        lemma_calm_none();
    } else {
        lemma_calm_paragraphs(all, (n - 1) as nat);
        lemma_calm_paragraph(trim(all[n - 1]));
        lemma_calm_concat(paragraphs(all, (n - 1) as nat), paragraph(trim(all[n - 1])));
    }
}

proof fn lemma_calm_text_block(name: Seq<char>, value: Seq<char>)
    requires
        ordinary(name),
        name != "LblTx"@,
    ensures
        calm(text_block(name, value)),
{
    let all = lines(value);
    lemma_calm_paragraph(seq![]);
    lemma_calm_paragraphs(all, all.len());
    lemma_calm_wrapped(
        name,
        seq![],
        if crate::gaeb_xml::blank(all) {
            paragraph(seq![])
        } else {
            paragraphs(all, all.len())
        },
    );
}

proof fn lemma_calm_info(moment: MomentView)
    ensures
        calm(info_events(moment)),
{
    reveal(info_events);
    lemma_header_names();
    lemma_award_names();
    lemma_level_names();
    lemma_item_names();
    let a = element("Version"@, "3.3"@);
    let b = element("VersDate"@, "2021-05"@);
    let c = element("Date"@, moment.iso_date());
    let d = element("Time"@, moment.iso_time());
    let e = element("ProgSystem"@, "gaeb-toolkit"@);
    let f = element("ProgName"@, "gaeb-toolkit"@);
    let g = element("Certific"@, "not certified"@);
    lemma_calm_element("Version"@, "3.3"@);
    lemma_calm_element("VersDate"@, "2021-05"@);
    lemma_calm_element("Date"@, moment.iso_date());
    lemma_calm_element("Time"@, moment.iso_time());
    lemma_calm_element("ProgSystem"@, "gaeb-toolkit"@);
    lemma_calm_element("ProgName"@, "gaeb-toolkit"@);
    lemma_calm_element("Certific"@, "not certified"@);
    lemma_calm_concat(a, b);
    lemma_calm_concat(a + b, c);
    lemma_calm_concat(a + b + c, d);
    lemma_calm_concat(a + b + c + d, e);
    lemma_calm_concat(a + b + c + d + e, f);
    lemma_calm_concat(a + b + c + d + e + f, g);
    lemma_calm_wrapped("GAEBInfo"@, seq![], a + b + c + d + e + f + g);
    assert(info_events(moment) =~= wrapped("GAEBInfo"@, seq![], a + b + c + d + e + f + g));
}

/// What the events on the project tell of the document.
pub open spec fn with_project(d: DocumentView, boq: BoqView) -> DocumentView {
    told(
        told(told(d, "NamePrj"@, project_number_of(boq)), "LblPrj"@, project_label_of(boq)),
        "Cur"@,
        boq.currency,
    )
}

proof fn lemma_project(s: XmlView, boq: BoqView)
    requires
        outside(s),
    ensures
        sound(project_events(boq)),
        run(s, project_events(boq)) == (XmlView { document: with_project(s.document, boq), ..s }),
{
    reveal(project_events);
    lemma_header_names();
    lemma_award_names();
    lemma_level_names();
    lemma_item_names();
    let a = element("NamePrj"@, project_number_of(boq));
    let b = element("LblPrj"@, project_label_of(boq));
    let c = element("Cur"@, boq.currency);
    let d = element("CurLbl"@, currency_name(boq.currency));
    lemma_sound_element("NamePrj"@, project_number_of(boq));
    lemma_sound_element("LblPrj"@, project_label_of(boq));
    lemma_sound_element("Cur"@, boq.currency);
    lemma_calm_element("CurLbl"@, currency_name(boq.currency));
    lemma_sound_concat(a, b);
    lemma_sound_concat(a + b, c);
    lemma_sound_concat(a + b + c, d);
    lemma_sound_wrapped("PrjInfo"@, seq![], a + b + c + d);
    assert(project_events(boq) =~= wrapped("PrjInfo"@, seq![], a + b + c + d));
    lemma_run_wrapped(s, "PrjInfo"@, seq![], a + b + c + d);
    lemma_start(s, "PrjInfo"@, seq![]);
    let o = opened(s, "PrjInfo"@);
    lemma_outside_opened(s, "PrjInfo"@);
    lemma_run_concat(o, a + b + c, d);
    lemma_run_concat(o, a + b, c);
    lemma_run_concat(o, a, b);
    lemma_element_told(o, "NamePrj"@, project_number_of(boq));
    lemma_element_told(run(o, a), "LblPrj"@, project_label_of(boq));
    lemma_element_told(run(o, a + b), "Cur"@, boq.currency);
    assert(outside(run(o, a + b + c)));
    assert(run(run(o, a + b + c), d) == run(o, a + b + c));
    assert(s.elements.push("PrjInfo"@).drop_last() =~= s.elements);
}

/// What the events on the award tell of the document.
pub open spec fn with_award(d: DocumentView, boq: BoqView, phase: Seq<char>) -> DocumentView {
    told(told(d, "DP"@, phase), "Cur"@, boq.currency)
}

/// The preliminary remarks.
spec fn remarks(boq: BoqView) -> Seq<XmlItemView> {
    if trim(boq.preamble).len() > 0 {
        seq![start_tag("AddText"@), start_tag("OutlineAddText"@)] + element(
            "span"@,
            "Vorbemerkungen"@,
        ) + seq![XmlItemView::End("OutlineAddText"@)] + text_block("DetailAddText"@, boq.preamble)
            + seq![XmlItemView::End("AddText"@)]
    } else {
        seq![]
    }
}

proof fn lemma_calm_remarks(boq: BoqView)
    ensures
        calm(remarks(boq)),
{
    lemma_header_names();
    lemma_award_names();
    lemma_level_names();
    lemma_item_names();
    lemma_calm_none();
    let a = element("span"@, "Vorbemerkungen"@);
    let b = wrapped("OutlineAddText"@, seq![], a);
    let c = text_block("DetailAddText"@, boq.preamble);
    lemma_calm_element("span"@, "Vorbemerkungen"@);
    lemma_calm_wrapped("OutlineAddText"@, seq![], a);
    lemma_calm_text_block("DetailAddText"@, boq.preamble);
    lemma_calm_concat(b, c);
    lemma_calm_wrapped("AddText"@, seq![], b + c);
    if trim(boq.preamble).len() > 0 {
        assert(remarks(boq) =~= wrapped("AddText"@, seq![], b + c));
    }
}

proof fn lemma_award(s: XmlView, boq: BoqView, phase: Seq<char>)
    requires
        outside(s),
    ensures
        run(s, award_events(boq, phase)) == opened(
            XmlView { document: with_award(s.document, boq, phase), ..s },
            "Award"@,
        ),
        award_events(boq, phase)[0] is Start,
        forall|open: Seq<Seq<char>>| #[trigger]
            open_behind(open, award_events(boq, phase)) == Some(open.push("Award"@)),
{
    reveal(award_events);
    lemma_header_names();
    lemma_award_names();
    lemma_level_names();
    lemma_item_names();
    let first = seq![start_tag("Award"@)];
    let a = element("DP"@, phase);
    let b = element("Cur"@, boq.currency);
    let c = element("CurLbl"@, currency_name(boq.currency));
    let w = wrapped("AwardInfo"@, seq![], b + c);
    let r = remarks(boq);
    assert(award_events(boq, phase) =~= first + (a + w + r));
    lemma_sound_element("DP"@, phase);
    lemma_sound_element("Cur"@, boq.currency);
    lemma_calm_element("CurLbl"@, currency_name(boq.currency));
    lemma_sound_concat(b, c);
    lemma_sound_wrapped("AwardInfo"@, seq![], b + c);
    lemma_calm_remarks(boq);
    lemma_sound_concat(a, w);
    lemma_sound_concat(a + w, r);
    assert forall|open: Seq<Seq<char>>| #[trigger]
        open_behind(open, award_events(boq, phase)) == Some(open.push("Award"@)) by {
        lemma_open_start(open, "Award"@, seq![]);
        lemma_open_concat(open, first, a + w + r);
        assert(open_behind(open.push("Award"@), a + w + r) == Some(open.push("Award"@)));
    }
    lemma_run_concat(s, first, a + w + r);
    lemma_run_one(s, start_tag("Award"@));
    lemma_start(s, "Award"@, seq![]);
    lemma_outside_opened(s, "Award"@);
    let o = opened(s, "Award"@);
    lemma_run_concat(o, a + w, r);
    lemma_run_concat(o, a, w);
    lemma_element_told(o, "DP"@, phase);
    let t = run(o, a);
    lemma_run_wrapped(t, "AwardInfo"@, seq![], b + c);
    lemma_start(t, "AwardInfo"@, seq![]);
    lemma_outside_opened(t, "AwardInfo"@);
    let u = opened(t, "AwardInfo"@);
    lemma_run_concat(u, b, c);
    lemma_element_told(u, "Cur"@, boq.currency);
    assert(outside(run(u, b)));
    assert(run(run(u, b), c) == run(u, b));
    assert(t.elements.push("AwardInfo"@).drop_last() =~= t.elements);
    assert(outside(run(o, a + w)));
    assert(run(run(o, a + w), r) == run(o, a + w));
}

proof fn lemma_calm_level(label: Seq<char>)
    ensures
        calm(level_events(label)),
{
    lemma_header_names();
    lemma_award_names();
    lemma_level_names();
    lemma_item_names();
    let a = element("Type"@, "BoQLevel"@);
    let b = element("LblBoQBkdn"@, label);
    let c = element("Length"@, "2"@);
    let d = element("Num"@, "Yes"@);
    lemma_calm_element("Type"@, "BoQLevel"@);
    lemma_calm_element("LblBoQBkdn"@, label);
    lemma_calm_element("Length"@, "2"@);
    lemma_calm_element("Num"@, "Yes"@);
    lemma_calm_concat(a, b);
    lemma_calm_concat(a + b, c);
    lemma_calm_concat(a + b + c, d);
    lemma_calm_wrapped("BoQBkdn"@, seq![], a + b + c + d);
    assert(level_events(label) =~= wrapped("BoQBkdn"@, seq![], a + b + c + d));
}

proof fn lemma_boq_info(s: XmlView, boq: BoqView)
    requires
        outside(s),
    ensures
        sound(boq_info_events(boq)),
        run(s, boq_info_events(boq)) == (XmlView {
            document: told(s.document, "LblBoQ"@, project_label_of(boq)),
            ..s
        }),
{
    reveal(boq_info_events);
    lemma_header_names();
    lemma_award_names();
    lemma_level_names();
    lemma_item_names();
    let a = element("Name"@, "01"@);
    let b = element("LblBoQ"@, project_label_of(boq));
    let c = element("OutlCompl"@, "AllTxt"@);
    let l1 = level_events("Bereich"@);
    let l2 = level_events("Titel"@);
    let l3 = level_events("Untertitel"@);
    let t = element("Type"@, "Item"@);
    let u = element("Length"@, "3"@);
    let v = element("Num"@, "Yes"@);
    let w = wrapped("BoQBkdn"@, seq![], t + u + v);
    lemma_calm_element("Name"@, "01"@);
    lemma_sound_element("LblBoQ"@, project_label_of(boq));
    lemma_calm_element("OutlCompl"@, "AllTxt"@);
    lemma_calm_level("Bereich"@);
    lemma_calm_level("Titel"@);
    lemma_calm_level("Untertitel"@);
    lemma_calm_element("Type"@, "Item"@);
    lemma_calm_element("Length"@, "3"@);
    lemma_calm_element("Num"@, "Yes"@);
    lemma_calm_concat(t, u);
    lemma_calm_concat(t + u, v);
    lemma_calm_wrapped("BoQBkdn"@, seq![], t + u + v);
    lemma_calm_concat(c, l1);
    lemma_calm_concat(c + l1, l2);
    lemma_calm_concat(c + l1 + l2, l3);
    lemma_calm_concat(c + l1 + l2 + l3, w);
    let rest = c + l1 + l2 + l3 + w;
    lemma_sound_concat(a, b);
    lemma_sound_concat(a + b, rest);
    lemma_sound_wrapped("BoQInfo"@, seq![], a + b + rest);
    assert(boq_info_events(boq) =~= wrapped("BoQInfo"@, seq![], a + b + rest));
    lemma_run_wrapped(s, "BoQInfo"@, seq![], a + b + rest);
    lemma_start(s, "BoQInfo"@, seq![]);
    lemma_outside_opened(s, "BoQInfo"@);
    let o = opened(s, "BoQInfo"@);
    lemma_run_concat(o, a + b, rest);
    lemma_run_concat(o, a, b);
    assert(run(o, a) == o);
    lemma_element_told(o, "LblBoQ"@, project_label_of(boq));
    assert(outside(run(o, a + b)));
    assert(run(run(o, a + b), rest) == run(o, a + b));
    assert(s.elements.push("BoQInfo"@).drop_last() =~= s.elements);
}

// What a document opens it closes.

proof fn lemma_sound_texts(p: PositionView)
    ensures
        sound(item_texts(p)),
{
    lemma_header_names();
    lemma_award_names();
    lemma_level_names();
    lemma_item_names();
    let text = text_block("Text"@, p.long_text);
    let detail = if trim(p.long_text).len() > 0 {
        wrapped("DetailTxt"@, seq![], text)
    } else {
        seq![]
    };
    let short = text_block("TextOutlTxt"@, p.short_text);
    let outl = wrapped("OutlTxt"@, seq![], short);
    let outline = wrapped("OutlineText"@, seq![], outl);
    let complete = wrapped("CompleteText"@, seq![], detail + outline);
    assert(item_texts(p) =~= wrapped("Description"@, seq![], complete));
    lemma_calm_text_block("Text"@, p.long_text);
    lemma_sound_wrapped("DetailTxt"@, seq![], text);
    lemma_sound_none();
    lemma_calm_text_block("TextOutlTxt"@, p.short_text);
    lemma_sound_wrapped("OutlTxt"@, seq![], short);
    lemma_sound_wrapped("OutlineText"@, seq![], outl);
    lemma_sound_concat(detail, outline);
    lemma_sound_wrapped("CompleteText"@, seq![], detail + outline);
    lemma_sound_wrapped("Description"@, seq![], complete);
}

proof fn lemma_sound_number(name: Seq<char>, value: Option<Dec>, rounding: Option<nat>)
    requires
        plain_name(name),
    ensures
        sound(optional_number(name, value, rounding)),
{
    lemma_sound_none();
    if value is Some {
        let shown = match rounding {
            Some(places) => value->0.round_dp(places),
            None => value->0,
        };
        lemma_sound_element(name, shown.normalize().plain());
    }
}

proof fn lemma_sound_numbers(p: PositionView, style: Style)
    ensures
        sound(item_numbers(p, style)),
{
    lemma_item_names();
    lemma_sound_none();
    let places = rounding(style, 3);
    let q = optional_number("Qty"@, p.quantity, places);
    let u = match p.unit {
        Some(unit) => if trim(unit).len() > 0 {
            element("QU"@, unit)
        } else {
            seq![]
        },
        None => seq![],
    };
    lemma_sound_number("Qty"@, p.quantity, places);
    if p.unit is Some {
        lemma_sound_element("QU"@, p.unit->0);
    }
    lemma_sound_concat(q, u);
    let up = optional_number("UP"@, p.unit_price, Some(2));
    let it = optional_number("IT"@, p.total_price, Some(2));
    lemma_sound_number("UP"@, p.unit_price, Some(2));
    lemma_sound_number("IT"@, p.total_price, Some(2));
    lemma_sound_concat(q + u, up);
    lemma_sound_concat(q + u + up, it);
    lemma_sound_concat(up, it);
}

/// The attributes of a heading or an item.
spec fn numbering(id: nat, oz: Seq<char>) -> Seq<(Seq<char>, Seq<char>)> {
    seq![("ID"@, id_text(id)), ("RNoPart"@, after_last(oz, '.'))]
}

proof fn lemma_plain_numbering(id: nat, oz: Seq<char>)
    ensures
        forall|i: int|
            0 <= i < numbering(id, oz).len() ==> plain_name((#[trigger] numbering(id, oz)[i]).0),
{
    lemma_level_names();
}

proof fn lemma_sound_items(all: Seq<PositionView>, n: nat, id: nat, style: Style)
    requires
        n <= all.len(),
    ensures
        sound(items_events(all, n, id, style)),
    decreases n,
{
    if n == 0 {
        lemma_sound_none();
    } else {
        lemma_item_names();
        let p = all[n - 1];
        lemma_sound_items(all, (n - 1) as nat, id, style);
        lemma_sound_numbers(p, style);
        lemma_sound_texts(p);
        lemma_sound_none();
        lemma_sound_concat(item_numbers(p, style), item_description(p, style));
        lemma_plain_numbering(id + n, p.oz);
        lemma_sound_wrapped(
            "Item"@,
            numbering(id + n, p.oz),
            item_numbers(p, style) + item_description(p, style),
        );
        assert(item_events(p, id + n, style) =~= wrapped(
            "Item"@,
            numbering(id + n, p.oz),
            item_numbers(p, style) + item_description(p, style),
        ));
        lemma_sound_concat(
            items_events(all, (n - 1) as nat, id, style),
            item_events(p, id + n, style),
        );
    }
}

proof fn lemma_sound_itemlist(all: Seq<PositionView>, id: nat, style: Style)
    ensures
        sound(itemlist(all, id, style)),
{
    lemma_level_names();
    lemma_sound_none();
    let body = items_events(all, all.len(), id, style);
    lemma_sound_items(all, all.len(), id, style);
    lemma_sound_wrapped("Itemlist"@, seq![], body);
    if all.len() > 0 {
        assert(itemlist(all, id, style) =~= wrapped("Itemlist"@, seq![], body));
    }
}

proof fn lemma_sound_title(title: Seq<char>)
    ensures
        sound(rich_text("LblTx"@, title)),
{
    lemma_level_names();
    lemma_calm_paragraph(title);
    lemma_sound_wrapped("LblTx"@, seq![], paragraph(title));
    assert(rich_text("LblTx"@, title) =~= wrapped("LblTx"@, seq![], paragraph(title)));
}

/// The events of a heading with all that stands under it.
spec fn whole_heading(n: NodeView, at: nat, style: Style) -> Seq<XmlItemView> {
    heading_opening(n, at, style) + tree_events(n.children, at, style) + heading_closing(
        n,
        at + tree_size(n.children),
        style,
    )
}

proof fn lemma_heading_shape(n: NodeView, at: nat, style: Style)
    ensures
        whole_heading(n, at, style) == wrapped(
            "BoQCtgy"@,
            numbering(at, n.oz),
            rich_text("LblTx"@, title_in(n.title, style)) + wrapped(
                "BoQBody"@,
                seq![],
                tree_events(n.children, at, style) + itemlist(
                    n.positions,
                    at + tree_size(n.children),
                    style,
                ),
            ),
        ),
{
    reveal(heading_opening);
    reveal(heading_closing);
    let first = seq![XmlItemView::Start("BoQCtgy"@, numbering(at, n.oz))];
    let title = rich_text("LblTx"@, title_in(n.title, style));
    let start = seq![start_tag("BoQBody"@)];
    let children = tree_events(n.children, at, style);
    let items = itemlist(n.positions, at + tree_size(n.children), style);
    let ends = seq![XmlItemView::End("BoQBody"@), XmlItemView::End("BoQCtgy"@)];
    assert(heading_opening(n, at, style) =~= first + title + start);
    assert(ends =~= seq![XmlItemView::End("BoQBody"@)] + seq![XmlItemView::End("BoQCtgy"@)]);
    assert(whole_heading(n, at, style) =~= first + title + start + children + (items + ends));
    let body = wrapped("BoQBody"@, seq![], children + items);
    assert(whole_heading(n, at, style) =~= wrapped("BoQCtgy"@, numbering(at, n.oz), title + body));
}

proof fn lemma_sound_tree(nodes: Seq<NodeView>, id: nat, style: Style)
    ensures
        sound(tree_events(nodes, id, style)),
    decreases nodes,
{
    if nodes.len() == 0 {
        lemma_sound_none();
    } else {
        lemma_level_names();
        let n = nodes.last();
        let at = id + tree_size(nodes.drop_last()) + 1;
        let front = tree_events(nodes.drop_last(), id, style);
        let label = rich_text("LblTx"@, title_in(n.title, style));
        let children = tree_events(n.children, at, style);
        let items = itemlist(n.positions, at + tree_size(n.children), style);
        let body = wrapped("BoQBody"@, seq![], children + items);
        lemma_sound_tree(nodes.drop_last(), id, style);
        lemma_sound_tree(n.children, at, style);
        lemma_sound_itemlist(n.positions, at + tree_size(n.children), style);
        lemma_sound_title(title_in(n.title, style));
        lemma_sound_concat(children, items);
        lemma_sound_wrapped("BoQBody"@, seq![], children + items);
        lemma_sound_concat(label, body);
        lemma_plain_numbering(at, n.oz);
        lemma_sound_wrapped("BoQCtgy"@, numbering(at, n.oz), label + body);
        lemma_heading_shape(n, at, style);
        lemma_sound_concat(front, whole_heading(n, at, style));
        assert(tree_events(nodes, id, style) =~= front + whole_heading(n, at, style));
    }
}

/// The events of the bill in a document.
spec fn bill_events(boq: BoqView, style: Style) -> Seq<XmlItemView> {
    wrapped(
        "BoQ"@,
        seq![("ID"@, id_text(1))],
        boq_info_events(boq) + wrapped("BoQBody"@, seq![], tree_events(boq.roots, 1, style)),
    )
}

/// The events of a document inside of its outermost element.
spec fn inner_events(boq: BoqView, moment: MomentView, phase: Seq<char>, style: Style) -> Seq<
    XmlItemView,
> {
    info_events(moment) + project_events(boq) + (award_events(boq, phase) + bill_events(boq, style)
        + seq![XmlItemView::End("Award"@)])
}

proof fn lemma_document_shape(
    boq: BoqView,
    moment: MomentView,
    namespace: Seq<char>,
    phase: Seq<char>,
    style: Style,
)
    ensures
        document_events(boq, moment, namespace, phase, style) == seq![XmlItemView::Declaration]
            + wrapped("GAEB"@, seq![("xmlns"@, namespace)], inner_events(boq, moment, phase, style)),
{
    let tree = tree_events(boq.roots, 1, style);
    let a = seq![
        XmlItemView::Declaration,
        XmlItemView::Start("GAEB"@, seq![("xmlns"@, namespace)]),
    ];
    let ends = seq![
        XmlItemView::End("BoQBody"@),
        XmlItemView::End("BoQ"@),
        XmlItemView::End("Award"@),
        XmlItemView::End("GAEB"@),
    ];
    assert(a =~= seq![XmlItemView::Declaration] + seq![
        XmlItemView::Start("GAEB"@, seq![("xmlns"@, namespace)]),
    ]);
    assert(ends =~= seq![XmlItemView::End("BoQBody"@)] + seq![XmlItemView::End("BoQ"@)] + seq![
        XmlItemView::End("Award"@),
    ] + seq![XmlItemView::End("GAEB"@)]);
    assert(document_events(boq, moment, namespace, phase, style) =~= seq![XmlItemView::Declaration]
        + wrapped("GAEB"@, seq![("xmlns"@, namespace)], inner_events(boq, moment, phase, style)));
}

proof fn lemma_sound_inner(boq: BoqView, moment: MomentView, phase: Seq<char>, style: Style)
    ensures
        sound(inner_events(boq, moment, phase, style)),
{
    lemma_header_names();
    lemma_award_names();
    lemma_level_names();
    lemma_item_names();
    let s = opened(unread(seq![]), "GAEB"@);
    lemma_contains_push(seq![], "GAEB"@, "Item"@);
    lemma_contains_push(seq![], "GAEB"@, "LblTx"@);
    lemma_calm_info(moment);
    lemma_project(s, boq);
    lemma_award(s, boq, phase);
    lemma_boq_info(s, boq);
    lemma_sound_tree(boq.roots, 1, style);
    let tree = tree_events(boq.roots, 1, style);
    lemma_sound_wrapped("BoQBody"@, seq![], tree);
    lemma_sound_concat(boq_info_events(boq), wrapped("BoQBody"@, seq![], tree));
    lemma_sound_wrapped(
        "BoQ"@,
        seq![("ID"@, id_text(1))],
        boq_info_events(boq) + wrapped("BoQBody"@, seq![], tree),
    );
    let a = award_events(boq, phase);
    let b = bill_events(boq, style);
    let c = seq![XmlItemView::End("Award"@)];
    assert forall|open: Seq<Seq<char>>| #[trigger]
        open_behind(open, a + b + c) == Some(open) by {
        assert(open_behind(open, a) == Some(open.push("Award"@)));
        lemma_open_concat(open, a, b);
        assert(open_behind(open.push("Award"@), b) == Some(open.push("Award"@)));
        lemma_open_concat(open, a + b, c);
        lemma_open_end(open, "Award"@);
    }
    assert(a.len() > 0) by {
        reveal(award_events);
    }
    assert((a + b + c)[0] == a[0]);
    assert(sound(a + b + c));
    lemma_sound_concat(info_events(moment), project_events(boq));
    lemma_sound_concat(info_events(moment) + project_events(boq), a + b + c);
}

/// A document closes every element that it opens.
pub proof fn lemma_sound_document(
    boq: BoqView,
    moment: MomentView,
    namespace: Seq<char>,
    phase: Seq<char>,
    style: Style,
)
    ensures
        open_behind(seq![], document_events(boq, moment, namespace, phase, style)) == Some(
            Seq::<Seq<char>>::empty(),
        ),
{
    lemma_header_names();
    lemma_level_names();
    lemma_document_shape(boq, moment, namespace, phase, style);
    lemma_sound_inner(boq, moment, phase, style);
    let w = wrapped("GAEB"@, seq![("xmlns"@, namespace)], inner_events(boq, moment, phase, style));
    lemma_sound_wrapped(
        "GAEB"@,
        seq![("xmlns"@, namespace)],
        inner_events(boq, moment, phase, style),
    );
    let d = document_events(boq, moment, namespace, phase, style);
    assert(d.skip(1) =~= w);
    let none = Seq::<Seq<char>>::empty();
    assert(open_behind(none, w) == Some(none));
    assert(d[0] == XmlItemView::Declaration);
}

// Numbers.

/// A number that was written out is read as it was.
pub proof fn law_plain_number_returns(n: Dec)
    requires
        n.fits(),
    ensures
        point_number(n.plain()) == Some(n),
        trim(n.plain()) == n.plain(),
        n.plain().len() > 0,
{
    reveal_strlit(".");
    reveal_strlit(",");
    let m = magnitude(n.mantissa);
    let p = pow10(n.scale);
    lemma_pow10_positive(n.scale);
    let whole = n.whole_digits();
    let fraction = n.fraction_digits();
    lemma_digits(m / p);
    lemma_fraction_digits(n);
    lemma_price_value(n, n.scale);
    assert(fraction.len() == n.scale) by {
        if n.scale > 0 {
            assert(m % p < p) by (nonlinear_arith)
                requires
                    p > 0,
            ;
            lemma_digits_len(m % p, n.scale);
        }
    }
    assert(n.abs().whole_digits() == whole);
    assert(n.abs().fixed_fraction(n.scale) =~= fraction);
    assert(m * p / p == m) by (nonlinear_arith)
        requires
            p > 0,
    ;
    assert(price_digits(n, n.scale) == whole + fraction);
    assert(digits_value(whole + fraction) == m);
    let s = n.plain();
    let negative = n.mantissa < 0;
    assert forall|i: int| 0 <= i < s.len() implies s[i] != ',' && !is_space(#[trigger] s[i]) by {
        let at = i - n.sign().len();
        if i < n.sign().len() {
            assert(s[i] == '-');
        } else if at < whole.len() {
            assert(s[i] == whole[at]);
            assert(is_digit(whole[at]));
        } else if at > whole.len() {
            assert(s[i] == fraction[at - whole.len() - 1]);
            assert(is_digit(fraction[at - whole.len() - 1]));
        } else {
            assert(s[i] == '.');
        }
    }
    assert(is_digit(whole[0]));
    assert(s[0] == (if negative {
        '-'
    } else {
        whole[0]
    }));
    assert(trim(s) == s);
    lemma_replace_absent(s, ","@, "."@);
    let body = if negative {
        s.skip(1)
    } else {
        s
    };
    assert(body =~= (if n.scale == 0 {
        whole
    } else {
        whole + seq!['.'] + fraction
    }));
    assert forall|i: int| 0 <= i < whole.len() implies body[i] != '.' by {
        assert(is_digit(whole[i]));
        assert(body[i] == whole[i]);
    }
    lemma_position_of(body, '.', whole.len() as int);
    assert(body.take(whole.len() as int) =~= whole);
    if n.scale > 0 {
        assert(body.skip(whole.len() as int + 1) =~= fraction);
    } else {
        assert(fraction =~= Seq::<char>::empty());
    }
    assert(numeral(s) == Some(n));
}

proof fn lemma_normalize_fits(d: Dec)
    requires
        d.fits(),
    ensures
        d.normalize().fits(),
    decreases d.scale,
{
    if d.mantissa != 0 && d.scale > 0 && d.mantissa % 10 == 0 {
        lemma_normalize_fits(Dec { mantissa: d.mantissa / 10, scale: (d.scale - 1) as nat });
    }
}

proof fn lemma_round_fits(d: Dec, dp: nat)
    requires
        d.fits(),
    ensures
        d.round_dp(dp).fits(),
{
    if d.scale > dp {
        let k = (d.scale - dp) as nat;
        let unit = pow10(k);
        lemma_pow10_positive((k - 1) as nat);
        assert(unit == 10 * pow10((k - 1) as nat));
        assert(unit >= 10);
        let m = magnitude(d.mantissa);
        let whole = m / unit;
        assert(10 * whole <= m) by (nonlinear_arith)
            requires
                whole == m / unit,
                unit >= 10,
        ;
    }
}

/// What a number in a document is read as.
pub open spec fn number_back(value: Option<Dec>, rounding: Option<nat>) -> Option<Dec> {
    match value {
        Some(d) => Some(
            (match rounding {
                Some(places) => d.round_dp(places),
                None => d,
            }).normalize(),
        ),
        None => None,
    }
}

/// Whether a number, if there is one, can be held.
pub open spec fn holds(value: Option<Dec>) -> bool {
    value is Some ==> value->0.fits()
}

// Items.

/// A place in an item.
pub open spec fn in_item(s: XmlView) -> bool {
    s.gaeb && s.inside("Item"@) && s.item is Some
}

proof fn lemma_in_item_opened(s: XmlView, name: Seq<char>)
    requires
        in_item(s),
    ensures
        in_item(opened(s, name)),
        opened(s, name).inside("TextOutlTxt"@) == (s.inside("TextOutlTxt"@) || name
            == "TextOutlTxt"@),
        opened(s, name).inside("DetailTxt"@) == (s.inside("DetailTxt"@) || name == "DetailTxt"@),
        opened(s, name).current() == name,
{
    lemma_contains_push(s.elements, name, "Item"@);
    lemma_contains_push(s.elements, name, "TextOutlTxt"@);
    lemma_contains_push(s.elements, name, "DetailTxt"@);
}

/// The state with another item.
pub open spec fn with_item(s: XmlView, item: ItemView) -> XmlView {
    XmlView { item: Some(item), ..s }
}

proof fn lemma_run_inside(s: XmlView, name: Seq<char>, body: Seq<XmlItemView>)
    requires
        ordinary(name),
        run(opened(s, name), body).elements == s.elements.push(name),
    ensures
        run(s, wrapped(name, seq![], body)) == (XmlView {
            elements: s.elements,
            ..run(opened(s, name), body)
        }),
{
    lemma_run_wrapped(s, name, seq![], body);
    lemma_start(s, name, seq![]);
    assert(s.elements.push(name).drop_last() =~= s.elements);
}

proof fn lemma_item_element(s: XmlView, name: Seq<char>, value: Seq<char>)
    requires
        in_item(s),
        ordinary(name),
    ensures
        run(s, element(name, value)) == with_item(
            s,
            if trim(value).len() > 0 {
                opened(s, name).item_text(s.item->0, trim(value))
            } else {
                s.item->0
            },
        ),
{
    lemma_run_element(s, name, value);
    lemma_in_item_opened(s, name);
}

proof fn lemma_item_paragraph(s: XmlView, value: Seq<char>)
    requires
        in_item(s),
        s.inside("TextOutlTxt"@) || s.inside("DetailTxt"@),
    ensures
        run(s, paragraph(value)) == with_item(
            s,
            if trim(value).len() > 0 {
                if s.inside("TextOutlTxt"@) {
                    ItemView {
                        short_text: with_word(s.item->0.short_text, trim(value)),
                        ..s.item->0
                    }
                } else {
                    ItemView {
                        long_text: with_word(s.item->0.long_text, trim(value)),
                        ..s.item->0
                    }
                }
            } else {
                s.item->0
            },
        ),
{
    lemma_award_names();
    lemma_level_names();
    lemma_item_names();
    lemma_header_names();
    let o = opened(s, "p"@);
    lemma_in_item_opened(s, "p"@);
    lemma_in_item_opened(o, "span"@);
    lemma_item_element(o, "span"@, value);
    lemma_run_inside(s, "p"@, element("span"@, value));
    assert(paragraph(value) =~= wrapped("p"@, seq![], element("span"@, value)));
}

/// The lines of a text that are not blank, in one line.
pub open spec fn in_one_line(all: Seq<Seq<char>>, n: nat) -> Seq<char>
    decreases n,
{
    if n == 0 {
        seq![]
    } else if trim(all[n - 1]).len() == 0 {
        in_one_line(all, (n - 1) as nat)
    } else {
        with_word(in_one_line(all, (n - 1) as nat), trim(all[n - 1]))
    }
}

proof fn lemma_blank_line(all: Seq<Seq<char>>, n: nat)
    requires
        crate::gaeb_xml::blank(all),
        n <= all.len(),
    ensures
        in_one_line(all, n) == Seq::<char>::empty(),
    decreases n,
{
    if n > 0 {
        lemma_blank_line(all, (n - 1) as nat);
    }
}

/// An item with the lines of a text in its place.
pub open spec fn with_lines(item: ItemView, short: bool, text: Seq<char>) -> ItemView {
    if short {
        ItemView { short_text: text, ..item }
    } else {
        ItemView { long_text: text, ..item }
    }
}

proof fn lemma_item_paragraphs(s: XmlView, all: Seq<Seq<char>>, n: nat)
    requires
        in_item(s),
        s.inside("TextOutlTxt"@) || s.inside("DetailTxt"@),
        s.inside("TextOutlTxt"@) ==> s.item->0.short_text.len() == 0,
        !s.inside("TextOutlTxt"@) ==> s.item->0.long_text.len() == 0,
    ensures
        run(s, paragraphs(all, n)) == with_item(
            s,
            with_lines(s.item->0, s.inside("TextOutlTxt"@), in_one_line(all, n)),
        ),
    decreases n,
{
    if n == 0 {
        assert(in_one_line(all, 0) =~= Seq::<char>::empty());
        assert(s.inside("TextOutlTxt"@) ==> s.item->0.short_text =~= Seq::<char>::empty());
        assert(!s.inside("TextOutlTxt"@) ==> s.item->0.long_text =~= Seq::<char>::empty());
    } else {
        lemma_item_paragraphs(s, all, (n - 1) as nat);
        let line = trim(all[n - 1]);
        if line.len() > 0 {
            lemma_run_concat(s, paragraphs(all, (n - 1) as nat), paragraph(line));
            lemma_item_paragraph(run(s, paragraphs(all, (n - 1) as nat)), line);
            lemma_trim_again(all[n - 1]);
        }
    }
}

/// A text as it is read: the lines that are not blank, in one line.
pub open spec fn text_back(value: Seq<char>) -> Seq<char> {
    in_one_line(lines(value), lines(value).len())
}

proof fn lemma_item_block(s: XmlView, name: Seq<char>, value: Seq<char>)
    requires
        in_item(s),
        ordinary(name),
        name == "TextOutlTxt"@ && !s.inside("TextOutlTxt"@) && s.item->0.short_text.len() == 0 || name
            != "TextOutlTxt"@ && !s.inside("TextOutlTxt"@) && s.inside("DetailTxt"@)
            && s.item->0.long_text.len() == 0,
    ensures
        run(s, text_block(name, value)) == with_item(
            s,
            with_lines(s.item->0, name == "TextOutlTxt"@, text_back(value)),
        ),
{
    let all = lines(value);
    let o = opened(s, name);
    lemma_in_item_opened(s, name);
    let body = if crate::gaeb_xml::blank(all) {
        paragraph(seq![])
    } else {
        paragraphs(all, all.len())
    };
    assert(text_block(name, value) =~= wrapped(name, seq![], body));
    if crate::gaeb_xml::blank(all) {
        lemma_blank_line(all, all.len());
        lemma_item_paragraph(o, seq![]);
        assert(trim(Seq::<char>::empty()) =~= Seq::<char>::empty());
        assert(name == "TextOutlTxt"@ ==> s.item->0.short_text =~= Seq::<char>::empty());
        assert(name != "TextOutlTxt"@ ==> s.item->0.long_text =~= Seq::<char>::empty());
    } else {
        lemma_item_paragraphs(o, all, all.len());
    }
    lemma_run_inside(s, name, body);
}

/// The long text of an item as it is read.
pub open spec fn long_text_back(value: Seq<char>) -> Seq<char> {
    if trim(value).len() > 0 {
        text_back(value)
    } else {
        seq![]
    }
}

proof fn lemma_item_texts(s: XmlView, p: PositionView)
    requires
        in_item(s),
        !s.inside("TextOutlTxt"@),
        !s.inside("DetailTxt"@),
        s.item->0.short_text.len() == 0,
        s.item->0.long_text.len() == 0,
    ensures
        run(s, item_texts(p)) == with_item(
            s,
            ItemView {
                short_text: text_back(p.short_text),
                long_text: long_text_back(p.long_text),
                ..s.item->0
            },
        ),
{
    lemma_header_names();
    lemma_award_names();
    lemma_level_names();
    lemma_item_names();
    let text = text_block("Text"@, p.long_text);
    let detail = if trim(p.long_text).len() > 0 {
        wrapped("DetailTxt"@, seq![], text)
    } else {
        seq![]
    };
    let short = text_block("TextOutlTxt"@, p.short_text);
    let outl = wrapped("OutlTxt"@, seq![], short);
    let outline = wrapped("OutlineText"@, seq![], outl);
    let complete = wrapped("CompleteText"@, seq![], detail + outline);
    assert(item_texts(p) =~= wrapped("Description"@, seq![], complete));
    let a = opened(s, "Description"@);
    lemma_in_item_opened(s, "Description"@);
    let b = opened(a, "CompleteText"@);
    lemma_in_item_opened(a, "CompleteText"@);
    if trim(p.long_text).len() > 0 {
        let c = opened(b, "DetailTxt"@);
        lemma_in_item_opened(b, "DetailTxt"@);
        lemma_item_block(c, "Text"@, p.long_text);
        lemma_run_inside(b, "DetailTxt"@, text);
    } else {
        assert(b.item->0.long_text =~= Seq::<char>::empty());
    }
    let d = run(b, detail);
    assert(d == with_item(
        b,
        ItemView { long_text: long_text_back(p.long_text), ..s.item->0 },
    ));
    let e = opened(d, "OutlineText"@);
    lemma_in_item_opened(d, "OutlineText"@);
    let f = opened(e, "OutlTxt"@);
    lemma_in_item_opened(e, "OutlTxt"@);
    lemma_item_block(f, "TextOutlTxt"@, p.short_text);
    lemma_run_inside(e, "OutlTxt"@, short);
    lemma_run_inside(d, "OutlineText"@, outl);
    lemma_run_concat(b, detail, outline);
    lemma_run_inside(a, "CompleteText"@, detail + outline);
    lemma_run_inside(s, "Description"@, complete);
}

/// How a document rounds.
pub open spec fn rounding(style: Style, places: nat) -> Option<nat> {
    match style {
        Style::Request => None,
        Style::Priced | Style::Offer => Some(places),
    }
}

/// What an item of a document is read as under the headings with these parts.
pub open spec fn item_back(p: PositionView, path: Seq<Seq<char>>, style: Style) -> ItemView {
    let oz = join(path.push(after_last(p.oz, '.')), "."@);
    let unit = match p.unit {
        Some(unit) => trim(unit),
        None => seq![],
    };
    let asked = ItemView {
        oz,
        short_text: text_back(p.short_text),
        long_text: long_text_back(p.long_text),
        quantity: number_back(p.quantity, rounding(style, 3)),
        unit,
        unit_price: None,
        total_price: None,
    };
    let unit_price = number_back(p.unit_price, Some(2));
    let total_price = number_back(p.total_price, Some(2));
    match style {
        Style::Request => asked,
        Style::Priced => ItemView { unit_price, total_price, ..asked },
        Style::Offer => ItemView { oz, unit_price, total_price, ..empty_item() },
    }
}

/// Whether the numbers of a position can be held.
pub open spec fn holdable(p: PositionView) -> bool {
    holds(p.quantity) && holds(p.unit_price) && holds(p.total_price)
}

/// Which number of an item a name stands for.
pub open spec fn with_number(item: ItemView, name: Seq<char>, value: Option<Dec>) -> ItemView {
    if name == "Qty"@ {
        ItemView { quantity: value, ..item }
    } else if name == "UP"@ {
        ItemView { unit_price: value, ..item }
    } else {
        ItemView { total_price: value, ..item }
    }
}

pub open spec fn number_in(item: ItemView, name: Seq<char>) -> Option<Dec> {
    if name == "Qty"@ {
        item.quantity
    } else if name == "UP"@ {
        item.unit_price
    } else {
        item.total_price
    }
}

proof fn lemma_item_number(s: XmlView, name: Seq<char>, value: Option<Dec>, rounding: Option<nat>)
    requires
        in_item(s),
        !s.inside("TextOutlTxt"@),
        !s.inside("DetailTxt"@),
        name == "Qty"@ || name == "UP"@ || name == "IT"@,
        holds(value),
        number_in(s.item->0, name) is None,
    ensures
        run(s, optional_number(name, value, rounding)) == with_item(
            s,
            with_number(s.item->0, name, number_back(value, rounding)),
        ),
{
    lemma_level_names();
    lemma_item_names();
    match value {
        Some(d) => {
            let shown = match rounding {
                Some(places) => d.round_dp(places),
                None => d,
            };
            if rounding is Some {
                lemma_round_fits(d, rounding->0);
            }
            lemma_normalize_fits(shown);
            law_plain_number_returns(shown.normalize());
            lemma_item_element(s, name, shown.normalize().plain());
            lemma_in_item_opened(s, name);
        },
        None => {},
    }
}

proof fn lemma_item_numbers(s: XmlView, p: PositionView, path: Seq<Seq<char>>, style: Style)
    requires
        in_item(s),
        !s.inside("TextOutlTxt"@),
        !s.inside("DetailTxt"@),
        holdable(p),
        s.item->0 == (ItemView { oz: s.item->0.oz, ..empty_item() }),
    ensures
        run(s, item_numbers(p, style)) == with_item(
            s,
            ItemView {
                oz: s.item->0.oz,
                short_text: seq![],
                long_text: seq![],
                ..item_back(p, path, style)
            },
        ),
{
    lemma_level_names();
    lemma_item_names();
    if style == Style::Offer {
        lemma_offer_numbers(s, p, path);
    } else {
        lemma_listed_numbers(s, p, path, style);
    }
}

proof fn lemma_offer_numbers(s: XmlView, p: PositionView, path: Seq<Seq<char>>)
    requires
        in_item(s),
        !s.inside("TextOutlTxt"@),
        !s.inside("DetailTxt"@),
        holdable(p),
        s.item->0 == (ItemView { oz: s.item->0.oz, ..empty_item() }),
    ensures
        run(s, item_numbers(p, Style::Offer)) == with_item(
            s,
            ItemView { oz: s.item->0.oz, ..item_back(p, path, Style::Offer) },
        ),
{
    lemma_level_names();
    lemma_item_names();
    let up = optional_number("UP"@, p.unit_price, Some(2));
    let it = optional_number("IT"@, p.total_price, Some(2));
    lemma_item_number(s, "UP"@, p.unit_price, Some(2));
    lemma_item_number(run(s, up), "IT"@, p.total_price, Some(2));
    lemma_run_concat(s, up, it);
}

proof fn lemma_listed_numbers(s: XmlView, p: PositionView, path: Seq<Seq<char>>, style: Style)
    requires
        style != Style::Offer,
        in_item(s),
        !s.inside("TextOutlTxt"@),
        !s.inside("DetailTxt"@),
        holdable(p),
        s.item->0 == (ItemView { oz: s.item->0.oz, ..empty_item() }),
    ensures
        run(s, item_numbers(p, style)) == with_item(
            s,
            ItemView {
                oz: s.item->0.oz,
                short_text: seq![],
                long_text: seq![],
                ..item_back(p, path, style)
            },
        ),
{
    lemma_level_names();
    lemma_item_names();
    let q = optional_number("Qty"@, p.quantity, rounding(style, 3));
    lemma_item_number(s, "Qty"@, p.quantity, rounding(style, 3));
    let a = run(s, q);
    let u = match p.unit {
        Some(unit) => if trim(unit).len() > 0 {
            element("QU"@, unit)
        } else {
            seq![]
        },
        None => seq![],
    };
    if p.unit is Some && trim(p.unit->0).len() > 0 {
        lemma_item_element(a, "QU"@, p.unit->0);
        lemma_in_item_opened(a, "QU"@);
    } else if p.unit is Some {
        assert(trim(p.unit->0) =~= Seq::<char>::empty());
    }
    lemma_run_concat(s, q, u);
    let b = run(s, q + u);
    assert(b == with_item(
        s,
        ItemView {
            quantity: number_back(p.quantity, rounding(style, 3)),
            unit: match p.unit {
                Some(unit) => trim(unit),
                None => seq![],
            },
            ..s.item->0
        },
    ));
    if style == Style::Priced {
        let up = optional_number("UP"@, p.unit_price, Some(2));
        let it = optional_number("IT"@, p.total_price, Some(2));
        lemma_item_number(b, "UP"@, p.unit_price, Some(2));
        let c = run(b, up);
        lemma_item_number(c, "IT"@, p.total_price, Some(2));
        lemma_run_concat(s, q + u, up);
        lemma_run_concat(s, q + u + up, it);
        assert(item_numbers(p, style) == q + u + up + it);
    } else {
        assert(item_numbers(p, style) == q + u);
    }
}

proof fn lemma_numbered(id: nat, oz: Seq<char>)
    ensures
        attribute_named(read_attributes(numbering(id, oz)), 0, "RNoPart"@) == Ok::<Option<Seq<char>>, Seq<char>>(Some(after_last(oz, '.'))),
{
    lemma_level_names();
    lemma_local("ID"@);
    lemma_local("RNoPart"@);
    let a = read_attributes(numbering(id, oz));
    assert(a[0] == Ok::<(Seq<u8>, Result<Seq<char>, Seq<char>>), Seq<char>>(
        (vstd::utf8::encode_utf8("ID"@), Ok(id_text(id))),
    ));
    assert(a[1] == Ok::<(Seq<u8>, Result<Seq<char>, Seq<char>>), Seq<char>>(
        (vstd::utf8::encode_utf8("RNoPart"@), Ok(after_last(oz, '.'))),
    ));
    reveal_with_fuel(attribute_named, 3);
}

/// The state with one more row of the document.
pub open spec fn with_row(s: XmlView, row: RowView) -> XmlView {
    XmlView {
        document: DocumentView { rows: s.document.rows.push(row), ..s.document },
        ..s
    }
}

/// A place between items.
pub open spec fn between(s: XmlView) -> bool {
    outside(s) && s.item is None && !s.inside("TextOutlTxt"@) && !s.inside("DetailTxt"@)
}

proof fn lemma_item(s: XmlView, p: PositionView, id: nat, style: Style)
    requires
        between(s),
        holdable(p),
    ensures
        run(s, item_events(p, id, style)) == with_row(
            s,
            RowView::Item(item_back(p, s.categories, style)),
        ),
{
    lemma_level_names();
    lemma_item_names();
    lemma_numbered(id, p.oz);
    let attributes = numbering(id, p.oz);
    let n = item_numbers(p, style);
    let t = item_description(p, style);
    assert(item_events(p, id, style) =~= wrapped("Item"@, attributes, n + t));
    let o = step(s, XmlItemView::Start("Item"@, attributes));
    lemma_contains_push(s.elements, "Item"@, "Item"@);
    lemma_contains_push(s.elements, "Item"@, "TextOutlTxt"@);
    lemma_contains_push(s.elements, "Item"@, "DetailTxt"@);
    assert(in_item(o));
    lemma_item_numbers(o, p, s.categories, style);
    if style != Style::Offer {
        lemma_item_texts(run(o, n), p);
    }
    lemma_run_concat(o, n, t);
    lemma_run_wrapped(s, "Item"@, attributes, n + t);
    assert(s.elements.push("Item"@).drop_last() =~= s.elements);
}

/// The rows of the first `n` items.
pub open spec fn item_rows(all: Seq<PositionView>, n: nat, path: Seq<Seq<char>>, style: Style) -> Seq<
    RowView,
>
    decreases n,
{
    if n == 0 {
        seq![]
    } else {
        item_rows(all, (n - 1) as nat, path, style).push(
            RowView::Item(item_back(all[n - 1], path, style)),
        )
    }
}

/// The state with more rows of the document.
pub open spec fn with_rows(s: XmlView, rows: Seq<RowView>) -> XmlView {
    XmlView { document: DocumentView { rows: s.document.rows + rows, ..s.document }, ..s }
}

proof fn lemma_items(s: XmlView, all: Seq<PositionView>, n: nat, id: nat, style: Style)
    requires
        between(s),
        n <= all.len(),
        forall|i: int| 0 <= i < all.len() ==> holdable(#[trigger] all[i]),
    ensures
        run(s, items_events(all, n, id, style)) == with_rows(
            s,
            item_rows(all, n, s.categories, style),
        ),
    decreases n,
{
    if n == 0 {
        assert(s.document.rows + Seq::<RowView>::empty() =~= s.document.rows);
    } else {
        let front = items_events(all, (n - 1) as nat, id, style);
        let last = item_events(all[n - 1], id + n, style);
        lemma_items(s, all, (n - 1) as nat, id, style);
        let t = run(s, front);
        lemma_item(t, all[n - 1], id + n, style);
        lemma_run_concat(s, front, last);
        let rows = item_rows(all, (n - 1) as nat, s.categories, style);
        let row = RowView::Item(item_back(all[n - 1], s.categories, style));
        assert((s.document.rows + rows).push(row) =~= s.document.rows + rows.push(row));
    }
}

proof fn lemma_itemlist(s: XmlView, all: Seq<PositionView>, id: nat, style: Style)
    requires
        between(s),
        forall|i: int| 0 <= i < all.len() ==> holdable(#[trigger] all[i]),
    ensures
        run(s, itemlist(all, id, style)) == with_rows(
            s,
            item_rows(all, all.len(), s.categories, style),
        ),
{
    lemma_header_names();
    lemma_level_names();
    lemma_item_names();
    if all.len() == 0 {
        assert(s.document.rows + Seq::<RowView>::empty() =~= s.document.rows);
    } else {
        let body = items_events(all, all.len(), id, style);
        let o = opened(s, "Itemlist"@);
        lemma_outside_opened(s, "Itemlist"@);
        lemma_contains_push(s.elements, "Itemlist"@, "TextOutlTxt"@);
        lemma_contains_push(s.elements, "Itemlist"@, "DetailTxt"@);
        lemma_items(o, all, all.len(), id, style);
        lemma_run_inside(s, "Itemlist"@, body);
        assert(itemlist(all, id, style) =~= wrapped("Itemlist"@, seq![], body));
    }
}

// Headings.

proof fn lemma_title(s: XmlView, oz: Seq<char>, level: nat, title: Seq<char>)
    requires
        outside(s),
        s.document.rows.len() > 0,
        s.category == Some((s.document.rows.len() - 1) as nat),
        s.document.rows.last() == (RowView::Category { oz, title: seq![], level }),
    ensures
        run(s, rich_text("LblTx"@, title)) == (XmlView {
            document: DocumentView {
                rows: s.document.rows.drop_last().push(
                    RowView::Category { oz, title: trim(title), level },
                ),
                ..s.document
            },
            ..s
        }),
{
    lemma_header_names();
    lemma_award_names();
    lemma_level_names();
    lemma_item_names();
    let rows = s.document.rows;
    let e = element("span"@, title);
    let p = wrapped("p"@, seq![], e);
    assert(paragraph(title) =~= p);
    assert(rich_text("LblTx"@, title) =~= wrapped("LblTx"@, seq![], p));
    let a = opened(s, "LblTx"@);
    let b = opened(a, "p"@);
    let c = opened(b, "span"@);
    lemma_contains_push(s.elements, "LblTx"@, "Item"@);
    lemma_contains_push(a.elements, "p"@, "Item"@);
    lemma_contains_push(b.elements, "span"@, "Item"@);
    lemma_contains_push(s.elements, "LblTx"@, "LblTx"@);
    lemma_contains_push(a.elements, "p"@, "LblTx"@);
    lemma_contains_push(b.elements, "span"@, "LblTx"@);
    lemma_run_element(b, "span"@, title);
    lemma_run_inside(a, "p"@, e);
    lemma_run_inside(s, "LblTx"@, p);
    let t = trim(title);
    assert(title_at(rows, s.category) == Some(Seq::<char>::empty()));
    if t.len() > 0 {
        assert(with_word(Seq::<char>::empty(), t) =~= t);
        assert(retitled(rows, rows.len() - 1, t) =~= rows.drop_last().push(
            RowView::Category { oz, title: t, level },
        ));
    } else {
        assert(t =~= Seq::<char>::empty());
        assert(rows.drop_last().push(rows.last()) =~= rows);
    }
}

/// The rows that the headings of a tree are read as, under headings with these parts.
pub open spec fn rows_back(nodes: Seq<NodeView>, path: Seq<Seq<char>>, style: Style) -> Seq<RowView>
    decreases nodes,
{
    if nodes.len() == 0 {
        seq![]
    } else {
        let n = nodes.last();
        let own = path.push(after_last(n.oz, '.'));
        rows_back(nodes.drop_last(), path, style).push(
            RowView::Category {
                oz: join(own, "."@),
                title: trim(title_in(n.title, style)),
                level: own.len(),
            },
        ) + rows_back(n.children, own, style) + item_rows(
            n.positions,
            n.positions.len(),
            own,
            style,
        )
    }
}

/// Whether the numbers of all positions can be held.
pub open spec fn all_holdable(nodes: Seq<NodeView>) -> bool
    decreases nodes,
{
    nodes.len() == 0 || {
        let n = nodes.last();
        all_holdable(nodes.drop_last()) && all_holdable(n.children) && forall|i: int|
            0 <= i < n.positions.len() ==> holdable(#[trigger] n.positions[i])
    }
}

/// The state apart from the heading that was seen last.
pub open spec fn settled(s: XmlView) -> XmlView {
    XmlView { category: None, ..s }
}

proof fn lemma_tree(s: XmlView, nodes: Seq<NodeView>, id: nat, style: Style)
    requires
        between(s),
        all_holdable(nodes),
    ensures
        settled(run(s, tree_events(nodes, id, style))) == settled(
            with_rows(s, rows_back(nodes, s.categories, style)),
        ),
    decreases nodes,
{
    if nodes.len() == 0 {
        assert(s.document.rows + Seq::<RowView>::empty() =~= s.document.rows);
    } else {
        let n = nodes.last();
        let at = id + tree_size(nodes.drop_last()) + 1;
        let front = tree_events(nodes.drop_last(), id, style);
        lemma_tree(s, nodes.drop_last(), id, style);
        let t = run(s, front);
        let whole = whole_heading(n, at, style);
        assert(tree_events(nodes, id, style) =~= front + whole);
        lemma_run_concat(s, front, whole);
        let o = heading_opened(t, n, at, style);
        lemma_heading_opened(t, n, at, style);
        lemma_tree(o, n.children, at, style);
        lemma_heading(t, n, at, style);
        let rows = rows_back(nodes.drop_last(), s.categories, style);
        let own = s.categories.push(after_last(n.oz, '.'));
        assert(t.document.rows == s.document.rows + rows);
        assert(heading_rows(t, n, style) =~= s.document.rows + rows_back(
            nodes,
            s.categories,
            style,
        ));
    }
}

/// The state inside of a heading, behind its title.
spec fn heading_opened(s: XmlView, n: NodeView, at: nat, style: Style) -> XmlView {
    let own = s.categories.push(after_last(n.oz, '.'));
    XmlView {
        document: DocumentView {
            rows: s.document.rows.push(
                RowView::Category {
                    oz: join(own, "."@),
                    title: trim(title_in(n.title, style)),
                    level: own.len(),
                },
            ),
            ..s.document
        },
        elements: s.elements.push("BoQCtgy"@).push("BoQBody"@),
        categories: own,
        category: Some(s.document.rows.len()),
        ..s
    }
}

/// The rows behind a heading with all that stands under it.
spec fn heading_rows(s: XmlView, n: NodeView, style: Style) -> Seq<RowView> {
    let own = s.categories.push(after_last(n.oz, '.'));
    s.document.rows.push(
        RowView::Category {
            oz: join(own, "."@),
            title: trim(title_in(n.title, style)),
            level: own.len(),
        },
    ) + rows_back(n.children, own, style) + item_rows(n.positions, n.positions.len(), own, style)
}

proof fn lemma_heading_opened(s: XmlView, n: NodeView, at: nat, style: Style)
    requires
        between(s),
    ensures
        between(heading_opened(s, n, at, style)),
{
    lemma_level_names();
    lemma_item_names();
    let e = s.elements.push("BoQCtgy"@);
    lemma_contains_push(s.elements, "BoQCtgy"@, "Item"@);
    lemma_contains_push(s.elements, "BoQCtgy"@, "LblTx"@);
    lemma_contains_push(s.elements, "BoQCtgy"@, "TextOutlTxt"@);
    lemma_contains_push(s.elements, "BoQCtgy"@, "DetailTxt"@);
    lemma_contains_push(e, "BoQBody"@, "Item"@);
    lemma_contains_push(e, "BoQBody"@, "LblTx"@);
    lemma_contains_push(e, "BoQBody"@, "TextOutlTxt"@);
    lemma_contains_push(e, "BoQBody"@, "DetailTxt"@);
}

proof fn lemma_heading(s: XmlView, n: NodeView, at: nat, style: Style)
    requires
        between(s),
        forall|i: int| 0 <= i < n.positions.len() ==> holdable(#[trigger] n.positions[i]),
        settled(
            run(heading_opened(s, n, at, style), tree_events(n.children, at, style)),
        ) == settled(
            with_rows(
                heading_opened(s, n, at, style),
                rows_back(n.children, s.categories.push(after_last(n.oz, '.')), style),
            ),
        ),
    ensures
        settled(run(s, whole_heading(n, at, style))) == settled(
            XmlView {
                document: DocumentView { rows: heading_rows(s, n, style), ..s.document },
                ..s
            },
        ),
{
    lemma_header_names();
    lemma_level_names();
    lemma_item_names();
    lemma_heading_shape(n, at, style);
    lemma_heading_opened(s, n, at, style);
    lemma_numbered(at, n.oz);
    let attributes = numbering(at, n.oz);
    let part = after_last(n.oz, '.');
    let own = s.categories.push(part);
    let title = title_in(n.title, style);
    let label = rich_text("LblTx"@, title);
    let children = tree_events(n.children, at, style);
    let items = itemlist(n.positions, at + tree_size(n.children), style);
    let body = wrapped("BoQBody"@, seq![], children + items);

    let a = step(s, XmlItemView::Start("BoQCtgy"@, attributes));
    assert(a == (XmlView {
        document: DocumentView {
            rows: s.document.rows.push(
                RowView::Category { oz: join(own, "."@), title: seq![], level: own.len() },
            ),
            ..s.document
        },
        elements: s.elements.push("BoQCtgy"@),
        categories: own,
        category: Some(s.document.rows.len()),
        ..s
    }));
    lemma_contains_push(s.elements, "BoQCtgy"@, "Item"@);
    lemma_contains_push(s.elements, "BoQCtgy"@, "LblTx"@);
    lemma_title(a, join(own, "."@), own.len(), title);
    let b = run(a, label);
    assert(a.document.rows.drop_last() =~= s.document.rows);
    let o = heading_opened(s, n, at, style);
    assert(opened(b, "BoQBody"@) == o);
    let c = run(o, children);
    lemma_itemlist(c, n.positions, at + tree_size(n.children), style);
    lemma_run_concat(o, children, items);
    let d = run(o, children + items);
    assert(d.elements == b.elements.push("BoQBody"@));
    lemma_run_inside(b, "BoQBody"@, children + items);
    lemma_run_concat(a, label, body);
    lemma_run_wrapped(s, "BoQCtgy"@, attributes, label + body);
    let e = run(a, label + body);
    assert(e == (XmlView { elements: s.elements.push("BoQCtgy"@), ..d }));
    assert(s.elements.push("BoQCtgy"@).drop_last() =~= s.elements);
    assert(own.drop_last() =~= s.categories);
    assert(e.document.rows == heading_rows(s, n, style));

}

// Documents.

/// A text as it is read, or what was known before where it is blank.
pub open spec fn said(before: Seq<char>, value: Seq<char>) -> Seq<char> {
    if trim(value).len() > 0 {
        trim(value)
    } else {
        before
    }
}

/// What a written document is read as.
pub open spec fn document_back(
    boq: BoqView,
    source: Seq<char>,
    phase: Seq<char>,
    style: Style,
) -> DocumentView {
    DocumentView {
        source,
        project: said(said(seq![], project_number_of(boq)), project_label_of(boq)),
        boq: said(seq![], project_label_of(boq)),
        exchange_phase: said(seq![], phase),
        currency: said("EUR"@, boq.currency),
        rows: rows_back(boq.roots, seq![], style),
    }
}

proof fn lemma_told(d: DocumentView, value: Seq<char>)
    ensures
        told(d, "LblPrj"@, value) == (DocumentView { project: said(d.project, value), ..d }),
        d.project.len() == 0 ==> told(d, "NamePrj"@, value) == (DocumentView {
            project: said(d.project, value),
            ..d
        }),
        d.boq.len() == 0 ==> told(d, "LblBoQ"@, value) == (DocumentView {
            boq: said(d.boq, value),
            ..d
        }),
        d.exchange_phase.len() == 0 ==> told(d, "DP"@, value) == (DocumentView {
            exchange_phase: said(d.exchange_phase, value),
            ..d
        }),
        told(d, "Cur"@, value) == (DocumentView { currency: said(d.currency, value), ..d }),
{
    lemma_header_names();
    lemma_award_names();
    assert(seq!["LblPrj"@].last() == "LblPrj"@);
    assert(seq!["NamePrj"@].last() == "NamePrj"@);
    assert(seq!["LblBoQ"@].last() == "LblBoQ"@);
    assert(seq!["DP"@].last() == "DP"@);
    assert(seq!["Cur"@].last() == "Cur"@);
}

proof fn lemma_head_told(boq: BoqView, source: Seq<char>, phase: Seq<char>, style: Style)
    ensures
        (DocumentView {
            rows: rows_back(boq.roots, seq![], style),
            ..told(
                with_award(with_project(empty_document(source, seq![]), boq), boq, phase),
                "LblBoQ"@,
                project_label_of(boq),
            )
        }) == document_back(boq, source, phase, style),
{
    let d0 = empty_document(source, seq![]);
    lemma_told(d0, project_number_of(boq));
    let d1 = told(d0, "NamePrj"@, project_number_of(boq));
    lemma_told(d1, project_label_of(boq));
    let d2 = told(d1, "LblPrj"@, project_label_of(boq));
    lemma_told(d2, boq.currency);
    let d3 = told(d2, "Cur"@, boq.currency);
    lemma_told(d3, phase);
    let d4 = told(d3, "DP"@, phase);
    lemma_told(d4, boq.currency);
    let d5 = told(d4, "Cur"@, boq.currency);
    lemma_told(d5, project_label_of(boq));
}

proof fn lemma_bill(s: XmlView, boq: BoqView, style: Style)
    requires
        between(s),
        s.categories.len() == 0,
        s.document.rows.len() == 0,
        all_holdable(boq.roots),
    ensures
        settled(run(s, bill_events(boq, style))) == settled(
            XmlView {
                document: DocumentView {
                    rows: rows_back(boq.roots, seq![], style),
                    ..told(s.document, "LblBoQ"@, project_label_of(boq))
                },
                ..s
            },
        ),
{
    lemma_header_names();
    lemma_award_names();
    lemma_level_names();
    lemma_item_names();
    let attributes = seq![("ID"@, id_text(1))];
    let info = boq_info_events(boq);
    let tree = tree_events(boq.roots, 1, style);
    let body = wrapped("BoQBody"@, seq![], tree);
    let a = opened(s, "BoQ"@);
    lemma_outside_opened(s, "BoQ"@);
    lemma_contains_push(s.elements, "BoQ"@, "TextOutlTxt"@);
    lemma_contains_push(s.elements, "BoQ"@, "DetailTxt"@);
    lemma_boq_info(a, boq);
    let b = run(a, info);
    let c = opened(b, "BoQBody"@);
    lemma_outside_opened(b, "BoQBody"@);
    lemma_contains_push(b.elements, "BoQBody"@, "TextOutlTxt"@);
    lemma_contains_push(b.elements, "BoQBody"@, "DetailTxt"@);
    lemma_tree(c, boq.roots, 1, style);
    let d = run(c, tree);
    assert(d.elements == b.elements.push("BoQBody"@));
    lemma_run_inside(b, "BoQBody"@, tree);
    lemma_run_concat(a, info, body);
    lemma_run_wrapped(s, "BoQ"@, attributes, info + body);
    lemma_start(s, "BoQ"@, attributes);
    assert(s.elements.push("BoQ"@).drop_last() =~= s.elements);
    assert(s.categories =~= Seq::<Seq<char>>::empty());
    lemma_told(s.document, project_label_of(boq));
    assert(b.document.rows + rows_back(boq.roots, seq![], style) =~= rows_back(
        boq.roots,
        seq![],
        style,
    ));
}

/// What the whole document does to the reader.
proof fn lemma_document(
    source: Seq<char>,
    boq: BoqView,
    moment: MomentView,
    namespace: Seq<char>,
    phase: Seq<char>,
    style: Style,
)
    requires
        all_holdable(boq.roots),
    ensures
        ({
            let s = run(unread(source), document_events(boq, moment, namespace, phase, style));
            s.gaeb && s.document == document_back(boq, source, phase, style)
        }),
{
    lemma_header_names();
    lemma_award_names();
    lemma_level_names();
    lemma_item_names();
    lemma_document_shape(boq, moment, namespace, phase, style);
    let s = unread(source);
    let attributes = seq![("xmlns"@, namespace)];
    let inner = inner_events(boq, moment, phase, style);
    lemma_run_concat(
        s,
        seq![XmlItemView::Declaration],
        wrapped("GAEB"@, attributes, inner),
    );
    lemma_run_one(s, XmlItemView::Declaration);
    lemma_run_wrapped(s, "GAEB"@, attributes, inner);
    lemma_start(s, "GAEB"@, attributes);
    let a = opened(s, "GAEB"@);
    lemma_contains_push(s.elements, "GAEB"@, "Item"@);
    lemma_contains_push(s.elements, "GAEB"@, "LblTx"@);
    lemma_contains_push(s.elements, "GAEB"@, "TextOutlTxt"@);
    lemma_contains_push(s.elements, "GAEB"@, "DetailTxt"@);
    assert(between(a));
    let info = info_events(moment);
    let project = project_events(boq);
    let award = award_events(boq, phase);
    let bill = bill_events(boq, style);
    let end = seq![XmlItemView::End("Award"@)];
    lemma_run_concat(a, info + project, award + bill + end);
    lemma_run_concat(a, info, project);
    lemma_calm_info(moment);
    assert(run(a, info) == a);
    lemma_project(a, boq);
    let b = run(a, project);
    lemma_run_concat(b, award + bill, end);
    lemma_run_concat(b, award, bill);
    lemma_award(b, boq, phase);
    let c = run(b, award);
    lemma_outside_opened(b, "Award"@);
    lemma_contains_push(b.elements, "Award"@, "TextOutlTxt"@);
    lemma_contains_push(b.elements, "Award"@, "DetailTxt"@);
    lemma_bill(c, boq, style);
    let d = run(c, bill);
    lemma_run_one(d, XmlItemView::End("Award"@));
    lemma_head_told(boq, source, phase, style);
}

proof fn lemma_rows_have_item(nodes: Seq<NodeView>, path: Seq<Seq<char>>, style: Style)
    requires
        positions_of(nodes).len() > 0,
    ensures
        has_item(rows_back(nodes, path, style)),
    decreases nodes,
{
    let n = nodes.last();
    let own = path.push(after_last(n.oz, '.'));
    let front = rows_back(nodes.drop_last(), path, style);
    let children = rows_back(n.children, own, style);
    let items = item_rows(n.positions, n.positions.len(), own, style);
    let rows = rows_back(nodes, path, style);
    if positions_of(nodes.drop_last()).len() > 0 {
        lemma_rows_have_item(nodes.drop_last(), path, style);
        let i = choose|i: int| 0 <= i < front.len() && #[trigger] front[i] is Item;
        assert(rows[i] == front[i]);
    } else if positions_of(n.children).len() > 0 {
        lemma_rows_have_item(n.children, own, style);
        let i = choose|i: int| 0 <= i < children.len() && #[trigger] children[i] is Item;
        assert(rows[front.len() + 1 + i] == children[i]);
    } else {
        lemma_item_rows_len(n.positions, n.positions.len(), own, style);
        assert(rows[rows.len() - 1] == items[items.len() - 1]);
    }
}

proof fn lemma_item_rows_len(all: Seq<PositionView>, n: nat, path: Seq<Seq<char>>, style: Style)
    ensures
        item_rows(all, n, path, style).len() == n,
    decreases n,
{
    if n > 0 {
        lemma_item_rows_len(all, (n - 1) as nat, path, style);
    }
}

/// A bill that comes back from its document: it has a position, and its numbers can be
/// held.
pub open spec fn comes_back(boq: BoqView) -> bool {
    positions_of(boq.roots).len() > 0 && all_holdable(boq.roots)
}

/// A written document is read as the bill that it was written from: every heading with
/// its number and title, every position with its number, and with the texts, the quantity,
/// the unit and the prices that documents of the style show.
pub proof fn law_document_reads_back(
    source: Seq<char>,
    boq: BoqView,
    moment: MomentView,
    namespace: Seq<char>,
    phase: Seq<char>,
    style: Style,
)
    requires
        comes_back(boq),
    ensures
        gaeb_events(
            source,
            reread(document_events(boq, moment, namespace, phase, style)),
        ) == Ok::<DocumentView, Seq<char>>(document_back(boq, source, phase, style)),
{
    let events = document_events(boq, moment, namespace, phase, style);
    lemma_sound_document(boq, moment, namespace, phase, style);
    lemma_read(unread(source), seq![], events);
    lemma_document(source, boq, moment, namespace, phase, style);
    lemma_rows_have_item(boq.roots, seq![], style);
}

/// Whether bytes are read as the bill that they were written from.
pub open spec fn read_as_bill(bytes: Seq<u8>, boq: BoqView, phase: Seq<char>, style: Style) -> bool {
    comes_back(boq) ==> forall|source: Seq<char>| #[trigger]
        gaeb_xml(source, bytes) == Ok::<DocumentView, Seq<char>>(
            document_back(boq, source, phase, style),
        )
}

/// A number that continues the number of the heading above comes back as it was.
pub proof fn law_number_comes_back(path: Seq<Seq<char>>, part: Seq<char>)
    requires
        path.len() > 0,
        !part.contains('.'),
    ensures
        ({
            let oz = join(path, "."@) + "."@ + part;
            join(path.push(after_last(oz, '.')), "."@) == oz
        }),
{
    reveal_strlit(".");
    let oz = join(path, "."@) + "."@ + part;
    lemma_after_last(join(path, "."@), part);
    assert(oz =~= join(path, "."@).push('.') + part);
    assert(path.push(part).drop_last() =~= path);
}

proof fn lemma_after_last(front: Seq<char>, part: Seq<char>)
    requires
        !part.contains('.'),
    ensures
        after_last(front.push('.') + part, '.') == part,
    decreases part.len(),
{
    let s = front.push('.') + part;
    if part.len() == 0 {
        assert(s =~= front.push('.'));
        assert(part =~= Seq::<char>::empty());
    } else {
        assert(s.last() == part.last());
        assert(part.contains(part.last()));
        assert(s.drop_last() =~= front.push('.') + part.drop_last());
        assert forall|i: int| 0 <= i < part.drop_last().len() implies part.drop_last()[i] != '.' by {
            assert(part.contains(part[i]));
        }
        lemma_after_last(front, part.drop_last());
        assert(part.drop_last().push(part.last()) =~= part);
    }
}

proof fn lemma_items_concat(a: Seq<RowView>, b: Seq<RowView>)
    ensures
        items_of(a + b) == items_of(a) + items_of(b),
    decreases b.len(),
{
    if b.len() == 0 {
        assert(a + b =~= a);
        assert(items_of(a) + items_of(b) =~= items_of(a));
    } else {
        assert((a + b).drop_last() =~= a + b.drop_last());
        assert((a + b).last() == b.last());
        lemma_items_concat(a, b.drop_last());
        assert(items_of(a + b) =~= items_of(a) + items_of(b));
    }
}

proof fn lemma_item_rows(all: Seq<PositionView>, n: nat, path: Seq<Seq<char>>, style: Style)
    requires
        n <= all.len(),
    ensures
        items_of(item_rows(all, n, path, style)) == Seq::new(
            n,
            |i: int| item_back(all[i], path, style),
        ),
    decreases n,
{
    let rows = item_rows(all, n, path, style);
    if n > 0 {
        lemma_item_rows(all, (n - 1) as nat, path, style);
        assert(rows.drop_last() =~= item_rows(all, (n - 1) as nat, path, style));
    }
    assert(items_of(rows) =~= Seq::new(n, |i: int| item_back(all[i], path, style)));
}

/// The items come back in the order in which the positions were written, none missing and
/// none twice.
pub proof fn law_items_in_order(nodes: Seq<NodeView>, path: Seq<Seq<char>>, style: Style)
    ensures
        items_of(rows_back(nodes, path, style)).len() == written_positions(nodes).len(),
        forall|i: int|
            0 <= i < written_positions(nodes).len() ==> (ItemView {
                oz: seq![],
                ..(#[trigger] items_of(rows_back(nodes, path, style))[i])
            }) == (ItemView {
                oz: seq![],
                ..item_back(written_positions(nodes)[i], seq![], style)
            }),
    decreases nodes,
{
    if nodes.len() > 0 {
        let n = nodes.last();
        let own = path.push(after_last(n.oz, '.'));
        let row = RowView::Category {
            oz: join(own, "."@),
            title: trim(title_in(n.title, style)),
            level: own.len(),
        };
        let front = rows_back(nodes.drop_last(), path, style);
        let children = rows_back(n.children, own, style);
        let items = item_rows(n.positions, n.positions.len(), own, style);
        law_items_in_order(nodes.drop_last(), path, style);
        law_items_in_order(n.children, own, style);
        lemma_item_rows(n.positions, n.positions.len(), own, style);
        assert(front.push(row).drop_last() =~= front);
        assert(items_of(front.push(row)) == items_of(front));
        lemma_items_concat(front.push(row), children);
        lemma_items_concat(front.push(row) + children, items);
        let all = items_of(rows_back(nodes, path, style));
        assert(all == items_of(front) + items_of(children) + items_of(items));
        let w = written_positions(nodes);
        let a = written_positions(nodes.drop_last());
        let b = written_positions(n.children);
        assert(w =~= a + b + n.positions);
        assert forall|i: int| 0 <= i < w.len() implies (ItemView {
            oz: seq![],
            ..(#[trigger] all[i])
        }) == (ItemView { oz: seq![], ..item_back(w[i], seq![], style) }) by {
            if i < a.len() {
                assert(all[i] == items_of(front)[i]);
                assert(w[i] == a[i]);
            } else if i < a.len() + b.len() {
                assert(all[i] == items_of(children)[i - a.len()]);
                assert(w[i] == b[i - a.len()]);
            } else {
                assert(w[i] == n.positions[i - a.len() - b.len()]);
            }
        }
    }
}

} // verus!
