//! What holds of documents that are printed, of images in them, and of what is billed.

use crate::accounts::{email_shaped, kept_email};
use crate::billing::{
    checkout_form, checkout_result, portal_result, signature_until, StripeConfigView,
};
use crate::document::{DocumentView, ItemView};
use crate::events::{accounts_after, with_purchase, AccountView, EffectView, PurchaseView};
use crate::gaeb2000::behind;
use crate::gaeb_reader::{
    amount_text, head_lines_of, printable_text, quantity_text, with_words, wrapped, Wrapping,
};
use crate::inline_png::{
    images_for, lowest_above, nearest, number_above, place_for, InlinePngView, PositionRefView,
    TextMarkerView,
};
use crate::layout_reference_cleanup::{first_unpriced, without_unpriced};
use crate::model::{NodeView, PositionView};
use crate::pdf_cleanup::{layout_noise, reference_text};
use crate::text::{join, long_integer_in, lower, trim, words};
use crate::text_laws::{all_words, is_word, lemma_all_words, lemma_joined_words};
use crate::x83::lacks;
use vstd::prelude::*;

verus! {

/// The words of texts, one text behind the other.
pub open spec fn words_in(v: Seq<Seq<char>>) -> Seq<Seq<char>>
    decreases v.len(),
{
    if v.len() == 0 {
        seq![]
    } else {
        words_in(v.drop_last()) + words(v.last())
    }
}

/// Whether a line is no wider than this, or a single word.
pub open spec fn fits_or_word(line: Seq<char>, width: nat) -> bool {
    line.len() <= width || words(line).len() == 1
}

spec fn well_wrapped(w: Wrapping, width: nat) -> bool {
    &&& forall|i: int| 0 <= i < w.lines.len() ==> fits_or_word(#[trigger] w.lines[i], width)
    &&& w.current == join(words(w.current), " "@)
    &&& w.current.len() > 0 ==> fits_or_word(w.current, width)
}

proof fn lemma_word_wrapped(w: Wrapping, word: Seq<char>, width: nat)
    requires
        well_wrapped(w, width),
        is_word(word),
    ensures
        well_wrapped(w.word(word, width), width),
        words_in(w.word(word, width).lines) + words(w.word(word, width).current) == (words_in(
            w.lines,
        ) + words(w.current)).push(word),
{
    reveal_strlit(" ");
    let next = w.word(word, width);
    let before = words(w.current);
    lemma_all_words(w.current);
    lemma_joined_words(before);
    let one = seq![word];
    assert(all_words(one));
    lemma_joined_words(one);
    assert(join(one, " "@) == word);
    if w.current.len() > 0 && w.current.len() + 1 + word.len() > width {
        assert(next.lines.drop_last() =~= w.lines);
        assert(next.lines.last() == w.current);
        assert(words_in(next.lines) + words(word) =~= (words_in(w.lines) + before).push(word));
        assert forall|i: int| 0 <= i < next.lines.len() implies fits_or_word(
            #[trigger] next.lines[i],
            width,
        ) by {
            if i < w.lines.len() {
                assert(next.lines[i] == w.lines[i]);
            }
        }
    } else {
        let more = before.push(word);
        assert(all_words(more));
        lemma_joined_words(more);
        if w.current.len() > 0 {
            assert(more.drop_last() =~= before);
            assert(join(more, " "@) == join(before, " "@) + " "@ + word);
            assert(next.current =~= join(more, " "@));
        } else {
            assert(before.len() == 0);
            assert(more =~= one);
            assert(next.current =~= word);
        }
        assert(words_in(next.lines) + words(next.current) =~= (words_in(w.lines) + before).push(
            word,
        ));
    }
}

proof fn lemma_words_wrapped(start: Wrapping, all: Seq<Seq<char>>, n: nat, width: nat)
    requires
        n <= all.len(),
        all_words(all),
        well_wrapped(start, width),
        start.current.len() == 0,
    ensures
        well_wrapped(with_words(start, all, n, width), width),
        words_in(with_words(start, all, n, width).lines) + words(
            with_words(start, all, n, width).current,
        ) == words_in(start.lines) + all.take(n as int),
    decreases n,
{
    if n == 0 {
        assert(start.current =~= Seq::<char>::empty());
        assert(words(start.current) =~= Seq::<Seq<char>>::empty());
        assert(all.take(0) =~= Seq::<Seq<char>>::empty());
    } else {
        lemma_words_wrapped(start, all, (n - 1) as nat, width);
        assert(is_word(all[n - 1]));
        lemma_word_wrapped(with_words(start, all, (n - 1) as nat, width), all[n - 1], width);
        assert(all.take(n as int) =~= all.take(n - 1).push(all[n - 1]));
        assert((words_in(start.lines) + all.take(n - 1)).push(all[n - 1]) =~= words_in(start.lines)
            + all.take(n as int));
    }
}

/// A text that is broken into lines keeps all its words, in order, and no line is wider
/// than allowed, unless it is a single word.
pub proof fn law_wrapped(paragraphs: Seq<Seq<char>>, n: nat, width: nat)
    requires
        n <= paragraphs.len(),
    ensures
        words_in(wrapped(paragraphs, n, width)) == words_in(paragraphs.take(n as int)),
        forall|i: int|
            0 <= i < wrapped(paragraphs, n, width).len() ==> fits_or_word(
                #[trigger] wrapped(paragraphs, n, width)[i],
                width,
            ),
    decreases n,
{
    if n == 0 {
        assert(wrapped(paragraphs, 0, width) =~= paragraphs.take(0));
    } else {
        law_wrapped(paragraphs, (n - 1) as nat, width);
        let all = words(paragraphs[n - 1]);
        let before = wrapped(paragraphs, (n - 1) as nat, width);
        let start = Wrapping { lines: before, current: seq![] };
        lemma_all_words(paragraphs[n - 1]);
        let none = Seq::<Seq<char>>::empty();
        assert(words(start.current) =~= none);
        assert(join(none, " "@) =~= start.current);
        lemma_words_wrapped(start, all, all.len(), width);
        let w = with_words(start, all, all.len(), width);
        let after = wrapped(paragraphs, n, width);
        assert(all.take(all.len() as int) =~= all);
        assert(paragraphs.take(n as int).drop_last() =~= paragraphs.take(n - 1));
        if w.current.len() > 0 {
            assert(after.drop_last() =~= w.lines);
        } else {
            assert(w.current =~= Seq::<char>::empty());
            assert(words(w.current) =~= none);
            assert(words_in(w.lines) + none =~= words_in(w.lines));
        }
        assert forall|i: int| 0 <= i < after.len() implies fits_or_word(
            #[trigger] after[i],
            width,
        ) by {
            if i < w.lines.len() {
                assert(after[i] == w.lines[i]);
            }
        }
    }
}

/// Printing replaces dashes and curly quotation marks by plain ones, and leaves all other
/// characters where they are.
pub proof fn law_printable(s: Seq<char>, i: int)
    requires
        0 <= i < s.len(),
    ensures
        printable_text(s).len() == s.len(),
        s[i] == '–' || s[i] == '—' ==> printable_text(s)[i] == '-',
        s[i] == '“' || s[i] == '”' ==> printable_text(s)[i] == '"',
        s[i] == '’' ==> printable_text(s)[i] == '\'',
        ' ' <= s[i] <= '~' || s[i] == 'ä' || s[i] == 'ö' || s[i] == 'ü' || s[i] == 'ß'
            ==> printable_text(s)[i] == s[i],
{
}

/// The amount of an item is its total, or where there is none its unit price, in euros;
/// its quantity stands in front of its unit.
pub proof fn law_amounts_printed(item: ItemView)
    ensures
        item.total_price is Some ==> amount_text(item) == item.total_price->0.normalize().plain()
            + " EUR"@,
        item.total_price is None && item.unit_price is Some ==> amount_text(item)
            == item.unit_price->0.normalize().plain() + " EUR"@,
        item.total_price is None && item.unit_price is None ==> amount_text(item).len() == 0,
        item.quantity is Some ==> quantity_text(item) == item.quantity->0.normalize().plain()
            + " "@ + item.unit,
        item.quantity is None ==> quantity_text(item) == " "@ + item.unit,
{
    if item.quantity is None {
        assert(Seq::<char>::empty() + " "@ + item.unit =~= " "@ + item.unit);
    }
}

/// The head of a printed document names the file first and the exchange phase last, and
/// between them the project and the bill, where they have names of their own.
pub proof fn law_head_printed(document: DocumentView)
    ensures
        ({
            let head = head_lines_of(document);
            &&& head[0] == "Datei: "@ + printable_text(document.source)
            &&& head.last() == "Austauschphase: X"@ + document.exchange_phase + "   Währung: "@
                + printable_text(document.currency)
            &&& document.project.len() > 0 ==> head[1] == "Projekt: "@ + printable_text(
                document.project,
            )
            &&& document.boq.len() > 0 && document.boq != document.project
                ==> head[head.len() - 2] == "LV: "@ + printable_text(document.boq)
            &&& head.len() == 2 + (if document.project.len() > 0 {
                1int
            } else {
                0
            }) + (if document.boq.len() > 0 && document.boq != document.project {
                1int
            } else {
                0
            })
        }),
{
}

proof fn lemma_lowest(v: Seq<TextMarkerView>, top: int, n: nat)
    requires
        n <= v.len(),
    ensures
        ({
            let r = lowest_above(v, top, n);
            &&& r is Some ==> r->0 < n && v[r->0 as int].top <= top
            &&& r is Some ==> forall|i: int|
                0 <= i < n && (#[trigger] v[i]).top <= top ==> v[i].top <= v[r->0 as int].top
            &&& r is None ==> forall|i: int| 0 <= i < n ==> (#[trigger] v[i]).top > top
        }),
    decreases n,
{
    if n > 0 {
        lemma_lowest(v, top, (n - 1) as nat);
    }
}

proof fn lemma_nearest(v: Seq<TextMarkerView>, top: int, n: nat)
    requires
        n <= v.len(),
        forall|i: int| 0 <= i < n ==> (#[trigger] v[i]).top > top,
    ensures
        n > 0 <==> nearest(v, top, n) is Some,
        n > 0 ==> nearest(v, top, n)->0 < n && forall|i: int|
            0 <= i < n ==> v[nearest(v, top, n)->0 as int].top <= (#[trigger] v[i]).top,
    decreases n,
{
    if n > 0 {
        lemma_nearest(v, top, (n - 1) as nat);
    }
}

/// The number above an image is the lowest one at its height or above; where there is none
/// it is the highest of those below.
pub proof fn law_number_above(v: Seq<TextMarkerView>, top: int)
    ensures
        number_above(v, top) is None <==> v.len() == 0,
        v.len() > 0 ==> exists|k: int|
            0 <= k < v.len() && number_above(v, top) == Some((#[trigger] v[k]).oz) && forall|i: int|
                0 <= i < v.len() ==> {
                    ||| v[k].top <= top && ((#[trigger] v[i]).top > top || v[i].top <= v[k].top)
                    ||| v[k].top > top && v[i].top >= v[k].top
                },
{
    lemma_lowest(v, top, v.len());
    match lowest_above(v, top, v.len()) {
        Some(k) => {
            assert(number_above(v, top) == Some(v[k as int].oz));
        },
        None => {
            lemma_nearest(v, top, v.len());
            if v.len() > 0 {
                let k = nearest(v, top, v.len())->0 as int;
                assert(number_above(v, top) == Some(v[k].oz));
            }
        },
    }
}

/// Every image goes to the position it belongs to, and to no other.
pub proof fn law_images_sorted(
    images: Seq<InlinePngView>,
    places: Seq<PositionRefView>,
    k: nat,
    i: int,
)
    requires
        k < places.len(),
        0 <= i < images.len(),
    ensures
        place_for(images[i], places) == Some(k) ==> images_for(images, places, k).contains(images[i]),
        forall|j: int|
            0 <= j < images_for(images, places, k).len() ==> place_for(
                #[trigger] images_for(images, places, k)[j],
                places,
            ) == Some(k),
    decreases images.len(),
{
    let front = images.drop_last();
    let before = images_for(front, places, k);
    let after = images_for(images, places, k);
    if front.len() > 0 {
        let m = if i < front.len() {
            i
        } else {
            0
        };
        law_images_sorted(front, places, k, m);
    } else {
        assert(before.len() == 0);
    }
    if place_for(images[i], places) == Some(k) {
        if i < front.len() {
            assert(front[i] == images[i]);
            let j = choose|j: int| 0 <= j < before.len() && before[j] == images[i];
            assert(after[j] == images[i]);
        } else {
            assert(after.last() == images[i]);
            assert(after[after.len() - 1] == images[i]);
        }
    }
    assert forall|j: int| 0 <= j < after.len() implies place_for(#[trigger] after[j], places)
        == Some(k) by {
        if j < before.len() {
            assert(after[j] == before[j]);
        }
    }
}

/// The reference that is taken out of a bill has the number and the page that were asked
/// for, and neither quantity nor unit nor price.
pub proof fn law_reference_taken(nodes: Seq<NodeView>, oz: Seq<char>, page: nat)
    ensures
        without_unpriced(nodes, oz, page) matches Some((_, p)) ==> {
            &&& p.oz == oz
            &&& p.page_from is Some && p.page_from->0 == page
            &&& p.quantity is None && p.unit_price is None && p.total_price is None
            &&& p.unit is None || trim(p.unit->0).len() == 0
        },
    decreases nodes,
{
    if nodes.len() > 0 {
        let node = nodes[0];
        lemma_first_unpriced(node.positions, oz, page, 0);
        law_reference_taken(node.children, oz, page);
        law_reference_taken(nodes.skip(1), oz, page);
    }
}

proof fn lemma_first_unpriced(v: Seq<PositionView>, oz: Seq<char>, page: nat, n: nat)
    ensures
        first_unpriced(v, oz, page, n) matches Some(i) ==> {
            &&& i < v.len()
            &&& v[i as int].oz == oz
            &&& v[i as int].page_from is Some && v[i as int].page_from->0 == page
            &&& v[i as int].quantity is None && v[i as int].unit_price is None
            &&& v[i as int].total_price is None
            &&& lacks(v[i as int].unit)
        },
    decreases v.len() - n,
{
    if n < v.len() {
        lemma_first_unpriced(v, oz, page, n + 1);
    }
}

/// A text that starts with an extra to a position, or with a reference to one, refers to
/// it; a line that tells of the page belongs to the layout.
pub proof fn law_references_recognized(value: Seq<char>, rest: Seq<char>)
    ensures
        lower(trim(value)) == "zulage zu position"@ + rest ==> reference_text(value),
        lower(trim(value)) == "zulage zur position"@ + rest ==> reference_text(value),
        lower(trim(value)) == "zulage zu pos."@ + rest ==> reference_text(value),
        lower(trim(value)) == "zulage zur pos."@ + rest ==> reference_text(value),
        lower(trim(value)) == "positionsbezug"@ + rest ==> reference_text(value),
        lower(trim(value)) == "positions-bezug"@ + rest ==> reference_text(value),
        lower(trim(value)) == "bezug zu position"@ + rest ==> reference_text(value),
        lower(trim(value)) == "bezug auf position"@ + rest ==> reference_text(value),
        trim(value) == "Fortsetzung von vorheriger Seite"@ ==> layout_noise(value),
        trim(value) == "Fortsetzung auf nächster Seite"@ ==> layout_noise(value),
        trim(value) == "Eventualposition ohne GB"@ ==> layout_noise(value),
        value == "OZ Menge / Einheit"@ + rest ==> layout_noise(value),
{
    lemma_starts("zulage zu position"@, rest);
    lemma_starts("zulage zur position"@, rest);
    lemma_starts("zulage zu pos."@, rest);
    lemma_starts("zulage zur pos."@, rest);
    lemma_starts("positionsbezug"@, rest);
    lemma_starts("positions-bezug"@, rest);
    lemma_starts("bezug zu position"@, rest);
    lemma_starts("bezug auf position"@, rest);
    lemma_starts("OZ Menge / Einheit"@, rest);
}

proof fn lemma_starts(a: Seq<char>, rest: Seq<char>)
    ensures
        a.is_prefix_of(a + rest),
        (a + rest).skip(a.len() as int) == rest,
{
    assert((a + rest).subrange(0, a.len() as int) =~= a);
    assert((a + rest).skip(a.len() as int) =~= rest);
}

/// The value of a field of a form.
pub open spec fn field_of(form: Seq<(Seq<char>, Seq<char>)>, name: Seq<char>, value: Seq<char>) -> bool {
    form.contains((name, value))
}

/// What is ordered is what is offered: a single conversion is paid once and a subscription
/// by the month, each at its own price, one of it, under the address of who orders; any
/// other offer and any text that is no address is refused.
pub proof fn law_orders(config: StripeConfigView, offer: Seq<char>, email: Seq<char>)
    ensures
        ({
            let r = checkout_form(config, offer, email);
            let single = offer == seq!['s', 'i', 'n', 'g', 'l', 'e'];
            let pro = offer == seq!['p', 'r', 'o'];
            &&& r is Ok <==> email_shaped(kept_email(email)) && (single || pro)
            &&& r is Err ==> r->Err_0.status == 400
            &&& r is Ok ==> field_of(r->Ok_0, "customer_email"@, kept_email(email))
            &&& r is Ok ==> field_of(r->Ok_0, "metadata[offer]"@, offer)
            &&& r is Ok ==> field_of(r->Ok_0, "line_items[0][quantity]"@, "1"@)
            &&& r is Ok && single ==> field_of(
                r->Ok_0,
                "line_items[0][price]"@,
                config.single_price_id,
            ) && field_of(r->Ok_0, "mode"@, "payment"@)
            &&& r is Ok && pro ==> field_of(
                r->Ok_0,
                "line_items[0][price]"@,
                config.pro_price_id,
            ) && field_of(r->Ok_0, "mode"@, "subscription"@)
        }),
{
    reveal_strlit("single");
    reveal_strlit("pro");
    assert("single"@ =~= seq!['s', 'i', 'n', 'g', 'l', 'e']);
    assert("pro"@ =~= seq!['p', 'r', 'o']);
    let r = checkout_form(config, offer, email);
    if r is Ok {
        let f = r->Ok_0;
        assert(f[0].0 == "mode"@);
        assert(f[1].0 == "line_items[0][price]"@);
        assert(f[2] == ("line_items[0][quantity]"@, "1"@));
        assert(f[3] == ("customer_email"@, kept_email(email)));
        assert(f[9] == ("metadata[offer]"@, offer));
        assert(f.contains(f[0]) && f.contains(f[1]) && f.contains(f[2]) && f.contains(f[3])
            && f.contains(f[9]));
    }
}

/// What the payment service answers is handed on only where it is complete; otherwise the
/// fault is on its side.
pub proof fn law_answers(parsed: bool, success: bool, url: Option<Seq<char>>, id: Option<Seq<char>>)
    ensures
        checkout_result(parsed, success, url, id) is Ok <==> parsed && success && url is Some
            && id is Some,
        checkout_result(parsed, success, url, id) is Ok ==> checkout_result(
            parsed,
            success,
            url,
            id,
        )->Ok_0 == (url->0, id->0),
        checkout_result(parsed, success, url, id) is Err ==> checkout_result(
            parsed,
            success,
            url,
            id,
        )->Err_0.status == 502,
        portal_result(parsed, url) is Ok <==> parsed && url is Some,
        portal_result(parsed, url) is Ok ==> portal_result(parsed, url)->Ok_0 == url->0,
        portal_result(parsed, url) is Err ==> portal_result(parsed, url)->Err_0.status == 502,
{
}

/// A signature names its time once and may hold several codes: the time is that of the
/// last part that starts with `t=`, and every part that starts with `v1=` is a code.
pub proof fn law_signature_parts(p: Seq<Seq<char>>, n: nat, value: Seq<char>)
    requires
        n < p.len(),
    ensures
        p[n as int] == seq!['t', '='] + value ==> signature_until(p, n + 1).timestamp
            == long_integer_in(value) && signature_until(p, n + 1).signatures == signature_until(
            p,
            n,
        ).signatures,
        p[n as int] == seq!['v', '1', '='] + value ==> signature_until(p, n + 1).signatures
            == signature_until(p, n).signatures.push(value) && signature_until(p, n + 1).timestamp
            == signature_until(p, n).timestamp,
{
    reveal_strlit("t=");
    reveal_strlit("v1=");
    assert("t="@ =~= seq!['t', '=']);
    assert("v1="@ =~= seq!['v', '1', '=']);
    lemma_starts("t="@, value);
    lemma_starts("v1="@, value);
    if p[n as int] == seq!['v', '1', '='] + value {
        assert(p[n as int][0] == 'v');
        if "t="@.is_prefix_of(p[n as int]) {
            assert(p[n as int].subrange(0, 2)[0] == 'v');
        }
        assert(behind(p[n as int], "t="@) is None);
    }
}

/// A purchase changes the account of who bought and no other; that a subscription runs or
/// ends shows in all accounts of its customer and in no other, and nothing else of them
/// changes.
pub proof fn law_accounts_changed(
    accounts: Map<Seq<char>, AccountView>,
    p: PurchaseView,
    customer: Seq<char>,
    runs: bool,
    email: Seq<char>,
)
    requires
        accounts.contains_key(email),
    ensures
        accounts_after(accounts, EffectView::Nothing) == accounts,
        email != p.email ==> accounts_after(accounts, EffectView::Purchased(p))[email]
            == accounts[email],
        email == p.email ==> accounts_after(accounts, EffectView::Purchased(p))[email]
            == with_purchase(accounts[email], p),
        ({
            let after = accounts_after(accounts, EffectView::Subscription(customer, runs));
            &&& after.contains_key(email)
            &&& accounts[email].customer_id == customer ==> after[email].pro_active == runs
            &&& accounts[email].customer_id != customer ==> after[email] == accounts[email]
            &&& after[email].single_credits == accounts[email].single_credits
            &&& after[email].customer_id == accounts[email].customer_id
            &&& after[email].subscription_id == accounts[email].subscription_id
        }),
{
}

} // verus!
