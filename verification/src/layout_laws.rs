//! What holds of what is read from the layout of a document.

use crate::conversion_laws::given_twice;
use crate::gaeb2000::behind;
use crate::layout::attr_value;
use crate::layout_reference_cleanup::{
    last_real, margin_of, put_back, put_back_until, OccurrenceView,
};
use crate::model::{BoqView, NodeView, PositionView};
use crate::parser_laws::{lemma_split_front, lemma_split_whole};
use crate::pdf_cleanup::{
    lines_until, noted, numbered_twice, postprocessed, repeated_lines, short_for, short_index,
    still_doubled, warnings_left, with_bold_lines, with_fragment, with_short_text,
    without_references, LayoutLineView, LineRole, ShortTextView, TextFragmentView,
};
use crate::pdf_reader::{paged, with_recognition_note, written_chars};
use crate::text::{
    find, is_space, join, lemma_position_of, lines, single_spaced, split, trim,
};
use crate::tree::positions_of;
use vstd::prelude::*;

verus! {

/// Whether a text holds another one in its middle, at its start or at its end.
pub open spec fn holds(whole: Seq<char>, part: Seq<char>) -> bool {
    exists|a: Seq<char>, b: Seq<char>| whole == #[trigger] (a + part + b)
}

/// Whether a line shows a piece of text: it is at most two units away, has its text, and
/// is bold where the piece is.
pub open spec fn shows(line: LayoutLineView, f: TextFragmentView) -> bool {
    &&& -2 <= line.top - f.top <= 2
    &&& holds(line.text, f.text)
    &&& f.bold ==> line.bold
}

/// Whether some line shows a piece of text.
pub open spec fn shown(all: Seq<LayoutLineView>, f: TextFragmentView) -> bool {
    exists|i: int| 0 <= i < all.len() && shows(#[trigger] all[i], f)
}

proof fn lemma_holds_more(whole: Seq<char>, part: Seq<char>, more: Seq<char>)
    requires
        holds(whole, part),
    ensures
        holds(whole + more, part),
{
    let (a, b) = choose|a: Seq<char>, b: Seq<char>| whole == #[trigger] (a + part + b);
    assert(whole + more =~= a + part + (b + more));
}

/// The lines of a page show every piece of text, each next to where it stands; pieces that
/// follow each other and are at most two units apart share a line, and lines that follow
/// each other are further apart.
pub proof fn law_pieces_shown(v: Seq<TextFragmentView>, n: nat)
    requires
        n <= v.len(),
    ensures
        forall|k: int| 0 <= k < n ==> shown(lines_until(v, n), #[trigger] v[k]),
        lines_until(v, n).len() <= n,
        n > 0 ==> lines_until(v, n).len() > 0 && shows(lines_until(v, n).last(), v[n - 1]),
        forall|i: int|
            0 <= i < lines_until(v, n).len() - 1 ==> {
                let gap = #[trigger] lines_until(v, n)[i].top - lines_until(v, n)[i + 1].top;
                !(-2 <= gap <= 2)
            },
    decreases n,
{
    if n > 0 {
        law_pieces_shown(v, (n - 1) as nat);
        let before = lines_until(v, (n - 1) as nat);
        let f = v[n - 1];
        let after = lines_until(v, n);
        assert(after == with_fragment(before, f));
        let empty = Seq::<char>::empty();
        let last = after.len() - 1;
        assert(holds(after.last().text, f.text)) by {
            assert(f.text =~= empty + f.text + empty);
            if before.len() > 0 && -2 <= before.last().top - f.top <= 2 && before.last().text.len()
                > 0 {
                let front = before.last().text + " "@;
                assert(after.last().text =~= front + f.text + empty);
            }
        }
        assert(after[last] == after.last());
        assert forall|k: int| 0 <= k < n implies shown(after, #[trigger] v[k]) by {
            if k == n - 1 {
                assert(shows(after[last], f));
            } else {
                assert(shown(before, v[k]));
                let i = choose|i: int| 0 <= i < before.len() && shows(#[trigger] before[i], v[k]);
                if i < last {
                    assert(after[i] == before[i]);
                } else if before.len() == after.len() {
                    if before.last().text.len() == 0 {
                        let (a, b) = choose|a: Seq<char>, b: Seq<char>|
                            before[i].text == #[trigger] (a + v[k].text + b);
                        assert((a + v[k].text + b).len() == 0);
                        assert(v[k].text =~= empty);
                        assert(after[i].text =~= empty + v[k].text + after[i].text);
                    } else {
                        lemma_holds_more(before[i].text, v[k].text, " "@ + f.text);
                        assert(before[i].text + (" "@ + f.text) =~= before[i].text + " "@ + f.text);
                    }
                    assert(shows(after[i], v[k]));
                } else {
                    assert(after[i] == before[i]);
                }
            }
        }
        assert forall|i: int| 0 <= i < after.len() - 1 implies {
            let gap = #[trigger] after[i].top - after[i + 1].top;
            !(-2 <= gap <= 2)
        } by {
            assert(after[i].top == before[i].top);
            if before.len() == after.len() {
                assert(after[i + 1].top == before[i + 1].top);
            } else if i < before.len() - 1 {
                assert(after[i + 1] == before[i + 1]);
            } else {
                assert(before[i] == before.last());
            }
        }
    }
}

proof fn lemma_repeated(short: Seq<Seq<char>>, long: Seq<Seq<char>>, n: nat, m: nat)
    requires
        n <= m,
        m < short.len(),
        m <= long.len(),
        forall|i: int|
            n <= i < m ==> single_spaced(#[trigger] long[i]) == single_spaced(short[i + 1]),
        m + 1 == short.len() || m == long.len() || single_spaced(long[m as int]) != single_spaced(
            short[m as int + 1],
        ),
    ensures
        repeated_lines(short, long, n) == m,
    decreases m - n,
{
    if n < m {
        assert(single_spaced(long[n as int]) == single_spaced(short[n as int + 1]));
        lemma_repeated(short, long, n + 1, m);
    }
}

/// A position gets its short text from the layout, and its long text loses the lines at
/// its start that repeat it, and no others: the first `m` ones, where those are the lines
/// of the short text behind its first one, and the next one is not. Nothing else of the
/// position changes.
pub proof fn law_short_text_set(p: PositionView, short: Seq<char>, m: nat)
    requires
        m < lines(short).len(),
        m <= lines(p.long_text).len(),
        forall|i: int|
            0 <= i < m ==> single_spaced(#[trigger] lines(p.long_text)[i]) == single_spaced(
                lines(short)[i + 1],
            ),
        m + 1 == lines(short).len() || m == lines(p.long_text).len() || single_spaced(
            lines(p.long_text)[m as int],
        ) != single_spaced(lines(short)[m as int + 1]),
    ensures
        ({
            let after = with_short_text(p, short);
            &&& after.short_text == short
            &&& m == 0 ==> after.long_text == p.long_text
            &&& m > 0 ==> after.long_text == trim(
                join(lines(p.long_text).subrange(m as int, lines(p.long_text).len() as int), "\n"@),
            )
            &&& after.oz == p.oz && after.quantity == p.quantity && after.unit == p.unit
            &&& after.unit_price == p.unit_price && after.total_price == p.total_price
            &&& after.provisional == p.provisional && after.price_only == p.price_only
            &&& after.page_from == p.page_from && after.page_to == p.page_to
        }),
{
    lemma_repeated(lines(short), lines(p.long_text), 0, m);
    assert(lines(p.long_text).skip(m as int) =~= lines(p.long_text).subrange(
        m as int,
        lines(p.long_text).len() as int,
    ));
}

proof fn lemma_short_index(v: Seq<ShortTextView>, oz: Seq<char>, page: nat)
    ensures
        short_index(v, oz, page) <= v.len(),
        short_index(v, oz, page) < v.len() ==> {
            let found = v[short_index(v, oz, page) as int];
            found.oz == oz && found.page == page
        },
    decreases v.len(),
{
    if v.len() > 0 && !(v[0].oz == oz && v[0].page == page) {
        lemma_short_index(v.skip(1), oz, page);
    }
}

proof fn lemma_short_kept(
    v: Seq<ShortTextView>,
    n: int,
    with: ShortTextView,
    oz: Seq<char>,
    page: nat,
)
    requires
        0 <= n < v.len(),
        v[n].oz == with.oz,
        v[n].page == with.page,
    ensures
        short_index(v.update(n, with), oz, page) == short_index(v, oz, page),
    decreases v.len(),
{
    if n == 0 {
        assert(v.update(0, with).skip(1) =~= v.skip(1));
    } else {
        assert(v.update(n, with).skip(1) =~= v.skip(1).update(n - 1, with));
        lemma_short_kept(v.skip(1), n - 1, with, oz, page);
    }
}

proof fn lemma_short_added(v: Seq<ShortTextView>, with: ShortTextView, oz: Seq<char>, page: nat)
    ensures
        short_index(v, oz, page) < v.len() ==> short_index(v.push(with), oz, page) == short_index(
            v,
            oz,
            page,
        ),
        short_index(v, oz, page) == v.len() ==> short_index(v.push(with), oz, page) == if with.oz
            == oz && with.page == page {
            v.len()
        } else {
            v.len() + 1
        },
    decreases v.len(),
{
    lemma_short_index(v, oz, page);
    if v.len() > 0 {
        assert(v.push(with).skip(1) =~= v.skip(1).push(with));
        lemma_short_added(v.skip(1), with, oz, page);
    } else {
        assert(v.push(with).skip(1) =~= Seq::<ShortTextView>::empty());
        assert(short_index(Seq::<ShortTextView>::empty(), oz, page) == 0);
    }
}

/// Of the short texts found for a position on a page the one with more lines is kept, the
/// first of them where they have equally many; for other positions and pages nothing
/// changes.
pub proof fn law_longest_short_text_kept(
    v: Seq<ShortTextView>,
    oz: Seq<char>,
    page: nat,
    text: Seq<char>,
    other: Seq<char>,
    elsewhere: nat,
)
    ensures
        short_for(noted(v, oz, page, text), oz, page) == (match short_for(v, oz, page) {
            Some(kept) if lines(text).len() <= lines(kept).len() => Some(kept),
            _ => Some(text),
        }),
        other != oz || elsewhere != page ==> short_for(noted(v, oz, page, text), other, elsewhere)
            == short_for(v, other, elsewhere),
{
    let with = ShortTextView { oz, page, text };
    let n = short_index(v, oz, page) as int;
    lemma_short_index(v, oz, page);
    lemma_short_index(v, other, elsewhere);
    if n < v.len() {
        lemma_short_kept(v, n, with, oz, page);
        lemma_short_kept(v, n, with, other, elsewhere);
    } else {
        lemma_short_added(v, with, oz, page);
        lemma_short_added(v, with, other, elsewhere);
    }
}

/// The texts of `m` lines from `i` on.
pub open spec fn texts_from(all: Seq<LayoutLineView>, i: nat, m: nat) -> Seq<Seq<char>> {
    Seq::new(m, |k: int| all[i + k].text)
}

proof fn lemma_parts_taken(
    all: Seq<LayoutLineView>,
    roles: Seq<LineRole>,
    i: nat,
    left: nat,
    short: Seq<Seq<char>>,
    m: nat,
)
    requires
        all.len() == roles.len(),
        i + m <= all.len(),
        m <= left,
        forall|k: int| i <= k < i + m ==> #[trigger] roles[k] is Part,
        m == left || i + m == all.len() || roles[(i + m) as int] is Number || (
        roles[(i + m) as int] is Other && short.len() + m > 0),
    ensures
        with_bold_lines(all, roles, i, left, short) == short + texts_from(all, i, m),
    decreases m,
{
    if m == 0 {
        assert(short + texts_from(all, i, 0) =~= short);
    } else {
        assert(roles[i as int] is Part);
        let more = short.push(all[i as int].text);
        lemma_parts_taken(all, roles, i + 1, (left - 1) as nat, more, (m - 1) as nat);
        assert(more + texts_from(all, i + 1, (m - 1) as nat) =~= short + texts_from(all, i, m));
    }
}

/// The short text of a position is the first run of bold lines behind its number: lines
/// before the run are passed over, and it ends with a line that is not bold, with the next
/// number, at the end of the page, or where no more lines are looked at.
pub proof fn law_bold_run_taken(
    all: Seq<LayoutLineView>,
    roles: Seq<LineRole>,
    i: nat,
    left: nat,
    lead: nat,
    m: nat,
)
    requires
        all.len() == roles.len(),
        m > 0,
        i + lead + m <= all.len(),
        lead + m <= left,
        forall|k: int| i <= k < i + lead ==> (#[trigger] roles[k] is Noise || roles[k] is Other),
        forall|k: int| i + lead <= k < i + lead + m ==> #[trigger] roles[k] is Part,
        lead + m == left || i + lead + m == all.len() || roles[(i + lead + m) as int] is Number
            || roles[(i + lead + m) as int] is Other,
    ensures
        with_bold_lines(all, roles, i, left, seq![]) == texts_from(all, i + lead, m),
    decreases lead,
{
    let none = Seq::<Seq<char>>::empty();
    if lead == 0 {
        lemma_parts_taken(all, roles, i, left, none, m);
        assert(none + texts_from(all, i, m) =~= texts_from(all, i, m));
    } else {
        assert(roles[i as int] is Noise || roles[i as int] is Other);
        law_bold_run_taken(all, roles, i + 1, (left - 1) as nat, (lead - 1) as nat, m);
    }
}

/// The value of an attribute is what stands between its quotation marks.
pub proof fn law_attribute_value(
    front: Seq<char>,
    name: Seq<char>,
    value: Seq<char>,
    rest: Seq<char>,
)
    requires
        !value.contains('"'),
        find(front + (name + "=\""@) + value.push('"') + rest, name + "=\""@) == Some(front.len()),
    ensures
        attr_value(front + (name + "=\""@) + value.push('"') + rest, name) == Some(value),
{
    let opening = name + "=\""@;
    let attrs = front + opening + value.push('"') + rest;
    let tail = attrs.skip(front.len() as int + opening.len());
    assert(tail =~= value.push('"') + rest);
    assert forall|i: int| 0 <= i < value.len() implies tail[i] != '"' by {
        assert(tail[i] == value[i]);
        assert(value.contains(value[i]));
    }
    assert(tail[value.len() as int] == '"');
    lemma_position_of(tail, '"', value.len() as int);
    assert(tail.take(value.len() as int) =~= value);
}

/// A warning stays, unless it says that a number is doubled and no two positions have it
/// any more; no warning is added.
pub proof fn law_doubled_warnings_refreshed(
    w: Seq<Seq<char>>,
    v: Seq<PositionView>,
    m: Seq<char>,
    oz: Seq<char>,
)
    ensures
        warnings_left(w, v).contains("Doppelte OZ: "@ + oz) <==> w.contains("Doppelte OZ: "@ + oz)
            && given_twice(v, oz),
        !"Doppelte OZ: "@.is_prefix_of(m) ==> (warnings_left(w, v).contains(m) <==> w.contains(m)),
    decreases w.len(),
{
    let d = "Doppelte OZ: "@ + oz;
    let label = "Doppelte OZ: "@;
    assert(d.skip(label.len() as int) =~= oz);
    assert(d.subrange(0, label.len() as int) =~= label);
    assert(label.is_prefix_of(d));
    assert(behind(d, label) == Some(oz));
    assert(numbered_twice(v, oz) <==> given_twice(v, oz));
    if w.len() > 0 {
        let front = w.drop_last();
        law_doubled_warnings_refreshed(front, v, m, oz);
        let before = warnings_left(front, v);
        lemma_end(w, m);
        lemma_end(w, d);
        lemma_end(before.push(w.last()), m);
        lemma_end(before.push(w.last()), d);
        assert(before.push(w.last()).drop_last() =~= before);
        if w.last() == d {
            assert(still_doubled(d, v) == numbered_twice(v, oz));
        }
    }
}

proof fn lemma_end<T>(s: Seq<T>, m: T)
    requires
        s.len() > 0,
    ensures
        s.contains(m) <==> s.drop_last().contains(m) || s.last() == m,
{
    if s.contains(m) {
        let k = choose|k: int| 0 <= k < s.len() && s[k] == m;
        if k < s.len() - 1 {
            assert(s.drop_last()[k] == m);
        }
    }
    if s.drop_last().contains(m) {
        let k = choose|k: int| 0 <= k < s.drop_last().len() && s.drop_last()[k] == m;
        assert(s[k] == m);
    }
    if s.last() == m {
        assert(s[s.len() - 1] == m);
    }
}

/// Without a layout a bill only loses the positions that refer to another one, and says
/// why; with one, its other fields stay.
pub proof fn law_layout_missing(boq: BoqView, error: Seq<char>)
    ensures
        postprocessed(boq, Err(error)).roots == without_references(boq.roots),
        postprocessed(boq, Err(error)).warnings.contains(
            "Kurztext-Layout konnte nicht ausgewertet werden: "@ + error,
        ),
{
    let note = "Kurztext-Layout konnte nicht ausgewertet werden: "@ + error;
    let w = boq.warnings.push(note);
    reveal_strlit("Doppelte OZ: ");
    reveal_strlit("Kurztext-Layout konnte nicht ausgewertet werden: ");
    assert(note[0] == 'K' && "Doppelte OZ: "@[0] == 'D');
    if "Doppelte OZ: "@.is_prefix_of(note) {
        assert(note.subrange(0, "Doppelte OZ: "@.len() as int)[0] == 'K');
    }
    law_doubled_warnings_refreshed(w, positions_of(without_references(boq.roots)), note, seq![]);
    assert(w[w.len() - 1] == note);
    assert(w.contains(note));
}

/// Pages that were put behind each other come apart again.
pub proof fn law_pages_come_apart(pages: Seq<Seq<char>>)
    requires
        forall|i: int| 0 <= i < pages.len() ==> !(#[trigger] pages[i]).contains('\u{c}'),
    ensures
        split(paged(pages), '\u{c}') == pages.push(Seq::<char>::empty()),
{
    lemma_pages_behind(pages, pages.len(), Seq::<char>::empty());
    assert(pages.take(pages.len() as int) =~= pages);
    let empty = Seq::<char>::empty();
    lemma_split_whole(empty, '\u{c}');
    assert(paged(pages) + empty =~= paged(pages));
    assert(pages + seq![empty] =~= pages.push(empty));
}

proof fn lemma_pages_behind(pages: Seq<Seq<char>>, n: nat, rest: Seq<char>)
    requires
        n <= pages.len(),
        forall|i: int| 0 <= i < pages.len() ==> !(#[trigger] pages[i]).contains('\u{c}'),
    ensures
        split(paged(pages.take(n as int)) + rest, '\u{c}') == pages.take(n as int) + split(
            rest,
            '\u{c}',
        ),
    decreases n,
{
    let all = pages.take(n as int);
    if n == 0 {
        assert(paged(all) + rest =~= rest);
        assert(all + split(rest, '\u{c}') =~= split(rest, '\u{c}'));
    } else {
        let last = all.last();
        let front = pages.take(n - 1);
        assert(all.drop_last() =~= front);
        assert(!pages[n - 1].contains('\u{c}'));
        assert(last == pages[n - 1]);
        let tail = last + seq!['\u{c}'] + rest;
        assert(paged(all) + rest =~= paged(front) + tail);
        lemma_pages_behind(pages, (n - 1) as nat, tail);
        lemma_split_front(last, rest, '\u{c}');
        assert(front + (seq![last] + split(rest, '\u{c}')) =~= all + split(rest, '\u{c}'));
    }
}

/// The characters of two texts count together, and white space does not count.
pub proof fn law_characters_counted(a: Seq<char>, b: Seq<char>)
    ensures
        written_chars(a + b) == written_chars(a) + written_chars(b),
        (forall|i: int| 0 <= i < a.len() ==> is_space(#[trigger] a[i])) ==> written_chars(a) == 0,
        (forall|i: int| 0 <= i < a.len() ==> !is_space(#[trigger] a[i])) ==> written_chars(a)
            == a.len(),
    decreases a.len() + b.len(),
{
    if b.len() > 0 {
        assert((a + b).drop_last() =~= a + b.drop_last());
        law_characters_counted(a, b.drop_last());
    } else {
        assert(a + b =~= a);
        if a.len() > 0 {
            law_characters_counted(a.drop_last(), Seq::<char>::empty());
            assert(a.last() == a[a.len() - 1]);
            assert forall|i: int| 0 <= i < a.drop_last().len() implies #[trigger] a.drop_last()[i]
                == a[i] by {}
        }
    }
}

/// That a text was recognized is noted once, behind the other warnings, and only then.
pub proof fn law_recognition_noted(boq: BoqView)
    ensures
        with_recognition_note(boq, false) == boq,
        with_recognition_note(boq, true).roots == boq.roots,
        with_recognition_note(boq, true).warnings.len() == boq.warnings.len() + 1,
        with_recognition_note(boq, true).warnings.drop_last() == boq.warnings,
{
    assert(with_recognition_note(boq, true).warnings.drop_last() =~= boq.warnings);
}

proof fn lemma_margin(v: Seq<OccurrenceView>, n: nat)
    requires
        0 < n <= v.len(),
    ensures
        forall|i: int| 0 <= i < n ==> margin_of(v, n) <= (#[trigger] v[i]).left,
        exists|i: int| 0 <= i < n && margin_of(v, n) == (#[trigger] v[i]).left,
    decreases n,
{
    if n == 1 {
        assert(margin_of(v, 1) == v[0].left);
    } else {
        lemma_margin(v, (n - 1) as nat);
        let i = choose|i: int|
            0 <= i < n - 1 && margin_of(v, (n - 1) as nat) == (#[trigger] v[i]).left;
        assert(margin_of(v, n) == v[i].left || margin_of(v, n) == v[n - 1].left);
    }
}

proof fn lemma_last_real(v: Seq<OccurrenceView>, margin: int, n: nat, k: int)
    requires
        0 <= k < n <= v.len(),
        v[k].left <= margin + 18,
        forall|i: int| k < i < n ==> (#[trigger] v[i]).left > margin + 18,
    ensures
        last_real(v, margin, n) == Some(k as nat),
    decreases n,
{
    if k < n - 1 {
        assert(v[n - 1].left > margin + 18);
        lemma_last_real(v, margin, (n - 1) as nat, k);
    }
}

/// A number that stands more than eighteen units to the right of the leftmost one is a
/// reference: what was read there belongs to the last number before it that does not.
/// A number at the margin changes nothing.
pub proof fn law_references_put_back(
    roots: Seq<NodeView>,
    v: Seq<OccurrenceView>,
    n: nat,
    leftmost: int,
    k: int,
)
    requires
        n < v.len(),
        0 <= leftmost < v.len(),
        forall|i: int| 0 <= i < v.len() ==> v[leftmost].left <= (#[trigger] v[i]).left,
    ensures
        v[n as int].left <= v[leftmost].left + 18 ==> put_back_until(roots, v, n + 1)
            == put_back_until(roots, v, n),
        v[n as int].left > v[leftmost].left + 18 && 0 <= k < n && v[k].left <= v[leftmost].left + 18
            && (forall|i: int| k < i < n ==> (#[trigger] v[i]).left > v[leftmost].left + 18)
            ==> put_back_until(roots, v, n + 1).0 == put_back(
            put_back_until(roots, v, n).0,
            v[n as int],
            Some(v[k]),
        ).0,
{
    lemma_margin(v, v.len());
    let margin = margin_of(v, v.len());
    let i = choose|i: int| 0 <= i < v.len() && margin == (#[trigger] v[i]).left;
    assert(v[leftmost].left <= v[i].left);
    assert(margin <= v[leftmost].left);
    if 0 <= k < n && v[k].left <= margin + 18 && (forall|i: int|
        k < i < n ==> (#[trigger] v[i]).left > margin + 18) {
        lemma_last_real(v, margin, n, k);
    }
}

} // verus!
