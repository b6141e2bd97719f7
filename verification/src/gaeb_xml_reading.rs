//! What the elements of a GAEB DA XML document become.

use crate::decimal::Dec;
use crate::document::{empty_item, DocumentView, ItemView, RowView};
use crate::gaeb_reader::{
    attribute_named, gaeb_events, local, or_empty, point_number, read_until, unread, with_word,
    without_last, XmlView,
};
use crate::parser_laws::{lemma_digits_plain, lemma_numeral};
use crate::text::{
    all_digits, digits_value, is_digit, is_space, join, lemma_replace_absent,
    lemma_replace_char_concat, replace, trim,
};
use crate::xml::{AttributeView, XmlEventView};
use vstd::prelude::*;

verus! {

/// An element with a text in it and nothing else.
#[verifier::ext_equal]
pub struct Leaf {
    pub name: Seq<u8>,
    pub text: Seq<char>,
}

impl Leaf {
    /// The events of the element.
    pub open spec fn events(self) -> Seq<XmlEventView> {
        seq![
            XmlEventView::Start(self.name, seq![]),
            XmlEventView::Text(Ok(self.text)),
            XmlEventView::End(self.name),
        ]
    }

    /// Its name is none of those that open or close a heading or an item, and its text is
    /// not blank.
    pub open spec fn plain(self) -> bool {
        &&& local(self.name) != "Item"@
        &&& local(self.name) != "BoQCtgy"@
        &&& trim(self.text).len() > 0
    }
}

/// The events of elements, one behind the other.
pub open spec fn leaf_events(v: Seq<Leaf>) -> Seq<XmlEventView>
    decreases v.len(),
{
    if v.len() == 0 {
        seq![]
    } else {
        leaf_events(v.drop_last()) + v.last().events()
    }
}

/// The text of the last element of this name, without white space at its ends.
pub open spec fn last_text(v: Seq<Leaf>, name: Seq<char>) -> Option<Seq<char>>
    decreases v.len(),
{
    if v.len() == 0 {
        None
    } else if local(v.last().name) == name {
        Some(trim(v.last().text))
    } else {
        last_text(v.drop_last(), name)
    }
}

/// The texts of all elements of this name, in their order.
pub open spec fn all_texts(v: Seq<Leaf>, name: Seq<char>) -> Seq<Seq<char>>
    decreases v.len(),
{
    if v.len() == 0 {
        seq![]
    } else if local(v.last().name) == name {
        all_texts(v.drop_last(), name).push(trim(v.last().text))
    } else {
        all_texts(v.drop_last(), name)
    }
}

/// Whether an item has what the elements in it say: quantity, unit, unit price and total
/// under the names `Qty`, `QU`, `UP` and `IT`, and the long and the short text with all
/// their pieces, blanks between them.
pub open spec fn tells_item(item: ItemView, v: Seq<Leaf>) -> bool {
    &&& item.quantity == (match last_text(v, "Qty"@) {
        Some(s) => point_number(s),
        None => None,
    })
    &&& item.unit == (match last_text(v, "QU"@) {
        Some(s) => s,
        None => seq![],
    })
    &&& item.unit_price == (match last_text(v, "UP"@) {
        Some(s) => point_number(s),
        None => None,
    })
    &&& item.total_price == (match last_text(v, "IT"@) {
        Some(s) => point_number(s),
        None => None,
    })
    &&& item.long_text == join(all_texts(v, "DetailTxt"@), " "@)
    &&& item.short_text == join(all_texts(v, "TextOutlTxt"@), " "@)
}

proof fn lemma_element_names()
    ensures
        "Item"@.len() == 4 && "Item"@[0] == 'I',
        "BoQCtgy"@.len() == 7,
        "Qty"@.len() == 3,
        "QU"@.len() == 2 && "QU"@[0] == 'Q',
        "UP"@.len() == 2 && "UP"@[0] == 'U',
        "IT"@.len() == 2 && "IT"@[0] == 'I',
        "DetailTxt"@.len() == 9,
        "TextOutlTxt"@.len() == 11,
        "GAEB"@.len() == 4 && "GAEB"@[0] == 'G',
        "LblTx"@.len() == 5,
{
    reveal_strlit("Item");
    reveal_strlit("BoQCtgy");
    reveal_strlit("Qty");
    reveal_strlit("QU");
    reveal_strlit("UP");
    reveal_strlit("IT");
    reveal_strlit("DetailTxt");
    reveal_strlit("TextOutlTxt");
    reveal_strlit("GAEB");
    reveal_strlit("LblTx");
}

proof fn lemma_read_concat(s: XmlView, a: Seq<XmlEventView>, b: Seq<XmlEventView>, n: nat)
    requires
        n <= b.len(),
    ensures
        read_until(s, a + b, (a.len() + n) as nat) == (match read_until(s, a, a.len()) {
            Ok(mid) => read_until(mid, b, n),
            Err(e) => Err(e),
        }),
    decreases n,
{
    if n == 0 {
        lemma_read_prefix(s, a, b, a.len());
    } else {
        lemma_read_concat(s, a, b, (n - 1) as nat);
        assert((a + b)[a.len() + n - 1] == b[n - 1]);
    }
}

proof fn lemma_read_prefix(s: XmlView, a: Seq<XmlEventView>, b: Seq<XmlEventView>, n: nat)
    requires
        n <= a.len(),
    ensures
        read_until(s, a + b, n) == read_until(s, a, n),
    decreases n,
{
    if n > 0 {
        lemma_read_prefix(s, a, b, (n - 1) as nat);
        assert((a + b)[n - 1] == a[n - 1]);
    }
}

/// An item is open, and the text in it is not inside of a description.
spec fn in_item(s: XmlView) -> bool {
    &&& s.item is Some
    &&& s.inside("Item"@)
    &&& !s.inside("DetailTxt"@)
    &&& !s.inside("TextOutlTxt"@)
}

proof fn lemma_pushed(v: Seq<Seq<char>>, x: Seq<char>, y: Seq<char>)
    ensures
        v.push(x).contains(y) <==> v.contains(y) || x == y,
{
    let all = v.push(x);
    if all.contains(y) {
        let k = choose|k: int| 0 <= k < all.len() && all[k] == y;
        if k < v.len() {
            assert(v[k] == y);
        }
    }
    if v.contains(y) {
        let k = choose|k: int| 0 <= k < v.len() && v[k] == y;
        assert(all[k] == y);
    }
    if x == y {
        assert(all[v.len() as int] == y);
    }
}

proof fn lemma_leaf_read(s: XmlView, leaf: Leaf)
    requires
        in_item(s),
        leaf.plain(),
    ensures
        ({
            let inner = XmlView { elements: s.elements.push(local(leaf.name)), ..s };
            read_until(s, leaf.events(), 3) == Ok::<XmlView, Seq<char>>(
                XmlView {
                    item: Some(inner.item_text(s.item->0, trim(leaf.text))),
                    gaeb: s.gaeb || local(leaf.name) == "GAEB"@,
                    ..s
                },
            )
        }),
{
    let name = local(leaf.name);
    let e = leaf.events();
    let none = Seq::<AttributeView>::empty();
    assert(read_until(s, e, 0) == Ok::<XmlView, Seq<char>>(s));
    let a = XmlView {
        elements: s.elements.push(name),
        gaeb: s.gaeb || name == "GAEB"@,
        ..s
    };
    assert(s.event(e[0]) == Ok::<XmlView, Seq<char>>(a));
    assert(read_until(s, e, 1) == Ok::<XmlView, Seq<char>>(a));
    lemma_pushed(s.elements, name, "Item"@);
    let inner = XmlView { elements: s.elements.push(name), ..s };
    let b = XmlView { item: Some(a.item_text(s.item->0, trim(leaf.text))), ..a };
    assert(a.item_text(s.item->0, trim(leaf.text)) == inner.item_text(
        s.item->0,
        trim(leaf.text),
    ));
    assert(a.event(e[1]) == Ok::<XmlView, Seq<char>>(b));
    assert(read_until(s, e, 2) == Ok::<XmlView, Seq<char>>(b));
    assert(b.elements.drop_last() =~= s.elements);
    assert(read_until(s, e, 3) == b.event(e[2]));
}

/// A word behind others that are not empty.
proof fn lemma_with_word(p: Seq<Seq<char>>, value: Seq<char>)
    requires
        forall|i: int| 0 <= i < p.len() ==> (#[trigger] p[i]).len() > 0,
    ensures
        with_word(join(p, " "@), value) == join(p.push(value), " "@),
{
    reveal_strlit(" ");
    assert(" "@ =~= seq![' ']);
    assert(p.push(value).drop_last() =~= p);
    if p.len() == 0 {
        assert(join(p, " "@) + value =~= value);
    } else {
        lemma_join_filled(p);
        assert(join(p, " "@).push(' ') =~= join(p, " "@) + " "@);
    }
}

proof fn lemma_join_filled(p: Seq<Seq<char>>)
    requires
        p.len() > 0,
        forall|i: int| 0 <= i < p.len() ==> (#[trigger] p[i]).len() > 0,
    ensures
        join(p, " "@).len() > 0,
{
    assert(p[p.len() - 1].len() > 0);
}

proof fn lemma_texts_filled(v: Seq<Leaf>, name: Seq<char>)
    requires
        forall|i: int| 0 <= i < v.len() ==> (#[trigger] v[i]).plain(),
    ensures
        forall|i: int| 0 <= i < all_texts(v, name).len() ==> (#[trigger] all_texts(v, name)[i]).len()
            > 0,
    decreases v.len(),
{
    if v.len() > 0 {
        let front = v.drop_last();
        assert forall|i: int| 0 <= i < front.len() implies (#[trigger] front[i]).plain() by {
            assert(front[i] == v[i]);
        }
        lemma_texts_filled(front, name);
        assert(v[v.len() - 1].plain());
        let all = all_texts(v, name);
        let before = all_texts(front, name);
        assert forall|i: int| 0 <= i < all.len() implies (#[trigger] all[i]).len() > 0 by {
            if i < before.len() {
                assert(all[i] == before[i]);
            }
        }
    }
}

proof fn lemma_leaves_read(s: XmlView, v: Seq<Leaf>)
    requires
        in_item(s),
        tells_item(s.item->0, seq![]),
        forall|i: int| 0 <= i < v.len() ==> (#[trigger] v[i]).plain(),
    ensures
        ({
            let r = read_until(s, leaf_events(v), leaf_events(v).len());
            &&& r is Ok
            &&& r->Ok_0.item is Some
            &&& tells_item(r->Ok_0.item->0, v)
            &&& r->Ok_0.item->0.oz == s.item->0.oz
            &&& r->Ok_0.document == s.document
            &&& r->Ok_0.elements == s.elements
            &&& r->Ok_0.categories == s.categories
            &&& r->Ok_0.category == s.category
        }),
    decreases v.len(),
{
    lemma_element_names();
    if v.len() > 0 {
        let front = v.drop_last();
        let leaf = v.last();
        assert forall|i: int| 0 <= i < front.len() implies (#[trigger] front[i]).plain() by {
            assert(front[i] == v[i]);
        }
        assert(v[v.len() - 1].plain());
        lemma_leaves_read(s, front);
        let mid = read_until(s, leaf_events(front), leaf_events(front).len())->Ok_0;
        lemma_read_concat(s, leaf_events(front), leaf.events(), 3);
        assert(leaf_events(v).len() == leaf_events(front).len() + 3);
        lemma_leaf_read(mid, leaf);
        let name = local(leaf.name);
        let inner = XmlView { elements: mid.elements.push(name), ..mid };
        lemma_pushed(mid.elements, name, "TextOutlTxt"@);
        lemma_pushed(mid.elements, name, "DetailTxt"@);
        assert(inner.current() == name);
        lemma_texts_filled(front, "DetailTxt"@);
        lemma_texts_filled(front, "TextOutlTxt"@);
        lemma_with_word(all_texts(front, "DetailTxt"@), trim(leaf.text));
        lemma_with_word(all_texts(front, "TextOutlTxt"@), trim(leaf.text));
    } else {
        assert(v =~= seq![]);
        assert(leaf_events(v) =~= seq![]);
    }
}

/// An item element with elements of text in it is read as one more row: an item with the
/// number of the headings around it and its own part, and with what the elements in it say.
/// Nothing else of the document changes.
pub proof fn law_item_element_read(
    s: XmlView,
    item: Seq<u8>,
    attributes: Seq<AttributeView>,
    v: Seq<Leaf>,
)
    requires
        local(item) == "Item"@,
        attribute_named(attributes, 0, "RNoPart"@) is Ok,
        !s.inside("DetailTxt"@),
        !s.inside("TextOutlTxt"@),
        forall|i: int| 0 <= i < v.len() ==> (#[trigger] v[i]).plain(),
    ensures
        ({
            let events = seq![XmlEventView::Start(item, attributes)] + leaf_events(v) + seq![
                XmlEventView::End(item),
            ];
            let r = read_until(s, events, events.len());
            let row = r->Ok_0.document.rows.last();
            let part = attribute_named(attributes, 0, "RNoPart"@)->Ok_0;
            &&& r is Ok
            &&& r->Ok_0.document.rows.len() == s.document.rows.len() + 1
            &&& r->Ok_0.document.rows.drop_last() == s.document.rows
            &&& row is Item
            &&& tells_item(row->Item_0, v)
            &&& row->Item_0.oz == join(
                s.categories.push(
                    if part is Some {
                        part->0
                    } else {
                        seq![]
                    },
                ),
                "."@,
            )
            &&& r->Ok_0.document.project == s.document.project
            &&& r->Ok_0.document.boq == s.document.boq
            &&& r->Ok_0.document.currency == s.document.currency
            &&& r->Ok_0.categories == s.categories
            &&& r->Ok_0.elements == s.elements
        }),
{
    lemma_element_names();
    let first = seq![XmlEventView::Start(item, attributes)];
    let body = leaf_events(v);
    let last = seq![XmlEventView::End(item)];
    let events = first + body + last;
    let a = s.event(first[0])->Ok_0;
    assert(read_until(s, first, 0) == Ok::<XmlView, Seq<char>>(s));
    assert(read_until(s, first, 1) == Ok::<XmlView, Seq<char>>(a));
    lemma_pushed(s.elements, "Item"@, "Item"@);
    lemma_pushed(s.elements, "Item"@, "DetailTxt"@);
    lemma_pushed(s.elements, "Item"@, "TextOutlTxt"@);
    assert(tells_item(a.item->0, seq![])) by {
        assert(join(Seq::<Seq<char>>::empty(), " "@) =~= Seq::<char>::empty());
    }
    lemma_leaves_read(a, v);
    lemma_read_concat(s, first, body, body.len());
    let b = read_until(a, body, body.len())->Ok_0;
    assert(read_until(s, first + body, (first + body).len()) == Ok::<XmlView, Seq<char>>(b));
    lemma_read_concat(s, first + body, last, 1);
    assert(read_until(b, last, 0) == Ok::<XmlView, Seq<char>>(b));
    let c = b.ended("Item"@);
    assert(read_until(b, last, 1) == Ok::<XmlView, Seq<char>>(c));
    assert(events.len() == (first + body).len() + 1);
    assert(c.document.rows.drop_last() =~= s.document.rows);
    assert(c.elements =~= s.elements);
}

/// A heading element opens a heading whose number is that of the headings around it with
/// its own part behind, and whose level is the number of headings that are open. A title in
/// it, in an element `LblTx`, is the title of the heading.
pub proof fn law_heading_element_read(
    s: XmlView,
    heading: Seq<u8>,
    attributes: Seq<AttributeView>,
    title: Leaf,
)
    requires
        local(heading) == "BoQCtgy"@,
        attribute_named(attributes, 0, "RNoPart"@) is Ok,
        local(title.name) == "LblTx"@,
        trim(title.text).len() > 0,
        !s.inside("Item"@),
    ensures
        ({
            let events = seq![XmlEventView::Start(heading, attributes)] + title.events();
            let r = read_until(s, events, events.len());
            let part = attribute_named(attributes, 0, "RNoPart"@)->Ok_0;
            let categories = s.categories.push(
                if part is Some {
                    part->0
                } else {
                    seq![]
                },
            );
            &&& r is Ok
            &&& r->Ok_0.categories == categories
            &&& r->Ok_0.document.rows == s.document.rows.push(
                RowView::Category {
                    oz: join(categories, "."@),
                    title: trim(title.text),
                    level: categories.len(),
                },
            )
        }),
{
    lemma_element_names();
    let first = seq![XmlEventView::Start(heading, attributes)];
    let e = title.events();
    let a = s.event(first[0])->Ok_0;
    assert(read_until(s, first, 0) == Ok::<XmlView, Seq<char>>(s));
    assert(read_until(s, first, 1) == Ok::<XmlView, Seq<char>>(a));
    lemma_read_concat(s, first, e, 3);
    lemma_pushed(s.elements, "BoQCtgy"@, "Item"@);
    assert(read_until(a, e, 0) == Ok::<XmlView, Seq<char>>(a));
    let b = a.event(e[0])->Ok_0;
    assert(read_until(a, e, 1) == Ok::<XmlView, Seq<char>>(b));
    lemma_pushed(a.elements, "LblTx"@, "Item"@);
    lemma_pushed(a.elements, "LblTx"@, "LblTx"@);
    let c = b.event(e[1])->Ok_0;
    assert(read_until(a, e, 2) == Ok::<XmlView, Seq<char>>(c));
    assert(read_until(a, e, 3) == c.event(e[2]));
    let n = s.document.rows.len() as int;
    assert(b.document.rows[n] is Category);
    assert(with_word(Seq::<char>::empty(), trim(title.text)) =~= trim(title.text));
    let part = attribute_named(attributes, 0, "RNoPart"@)->Ok_0;
    let categories = s.categories.push(or_empty(part));
    assert(c.document.rows =~= s.document.rows.push(
        RowView::Category {
            oz: join(categories, "."@),
            title: trim(title.text),
            level: categories.len(),
        },
    ));
}

/// A number in a document is read as its digits, with as many decimal places as stand
/// behind its point or comma.
pub proof fn law_point_number(whole: Seq<char>, fraction: Seq<char>, comma: bool, negative: bool)
    requires
        all_digits(whole),
        all_digits(fraction),
        whole.len() > 0,
        fraction.len() > 0,
        (Dec { mantissa: digits_value(whole + fraction) as int, scale: fraction.len() }).fits(),
    ensures
        point_number(
            (if negative {
                seq!['-']
            } else {
                seq![]
            }) + whole + seq![
                if comma {
                    ','
                } else {
                    '.'
                },
            ] + fraction,
        ) == Some(
            Dec {
                mantissa: if negative {
                    -(digits_value(whole + fraction) as int)
                } else {
                    digits_value(whole + fraction) as int
                },
                scale: fraction.len(),
            },
        ),
{
    reveal_strlit(".");
    reveal_strlit(",");
    assert("."@ =~= seq!['.']);
    assert(","@ =~= seq![',']);
    let sign: Seq<char> = if negative {
        seq!['-']
    } else {
        seq![]
    };
    let mark = seq![
        if comma {
            ','
        } else {
            '.'
        },
    ];
    let s = sign + whole + mark + fraction;
    assert(is_digit(whole[0]));
    assert(is_digit(fraction[fraction.len() - 1]));
    assert(!is_space(s[0]) && !is_space(s.last()));
    assert(trim(s) == s);
    lemma_digits_plain(whole);
    lemma_digits_plain(fraction);
    assert(!sign.contains(','));
    lemma_replace_char_concat(sign + whole + mark, fraction, ","@, "."@);
    lemma_replace_char_concat(sign + whole, mark, ","@, "."@);
    lemma_replace_char_concat(sign, whole, ","@, "."@);
    lemma_replace_absent(sign, ","@, "."@);
    lemma_replace_absent(whole, ","@, "."@);
    lemma_replace_absent(fraction, ","@, "."@);
    if comma {
        assert(mark.subrange(0, 1) =~= ","@);
        assert(mark.skip(1) =~= Seq::<char>::empty());
        assert(replace(Seq::<char>::empty(), ","@, "."@) =~= Seq::<char>::empty());
        assert(replace(mark, ","@, "."@) =~= seq!['.']);
    } else {
        assert(!mark.contains(','));
        lemma_replace_absent(mark, ","@, "."@);
    }
    assert(replace(s, ","@, "."@) == sign + whole + seq!['.'] + fraction);
    lemma_numeral(whole, fraction, negative);
}

/// The head of a document: the project is its label, or its name where it has no label
/// yet; the first name of the bill and the first phase count, and the last currency.
pub proof fn law_head_texts(s: XmlView, text: Seq<char>)
    requires
        !s.inside("Item"@),
        !s.inside("LblTx"@),
    ensures
        ({
            let d = s.document;
            let r = s.text(text).document;
            &&& s.current() == "LblPrj"@ ==> r == (DocumentView { project: text, ..d })
            &&& s.current() == "NamePrj"@ && d.project.len() == 0 ==> r == (DocumentView {
                project: text,
                ..d
            })
            &&& s.current() == "NamePrj"@ && d.project.len() > 0 ==> r == d
            &&& s.current() == "LblBoQ"@ && d.boq.len() == 0 ==> r == (DocumentView {
                boq: text,
                ..d
            })
            &&& s.current() == "LblBoQ"@ && d.boq.len() > 0 ==> r == d
            &&& s.current() == "DP"@ && d.exchange_phase.len() == 0 ==> r == (DocumentView {
                exchange_phase: text,
                ..d
            })
            &&& s.current() == "DP"@ && d.exchange_phase.len() > 0 ==> r == d
            &&& s.current() == "Cur"@ ==> r == (DocumentView { currency: text, ..d })
        }),
{
    reveal_strlit("LblPrj");
    reveal_strlit("NamePrj");
    reveal_strlit("LblBoQ");
    reveal_strlit("DP");
    reveal_strlit("Cur");
    assert("LblPrj"@.len() == 6 && "LblPrj"@[3] == 'P');
    assert("NamePrj"@.len() == 7);
    assert("LblBoQ"@.len() == 6 && "LblBoQ"@[3] == 'B');
    assert("DP"@.len() == 2);
    assert("Cur"@.len() == 3);
}

} // verus!
