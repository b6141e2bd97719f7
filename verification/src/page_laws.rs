//! What holds of the lines of a printed page and of the prices in them.

use crate::parser::{
    german_number, in_front, last_page, leading_price, line_kind, quantity_line, with_leading_price,
    with_trailing_quantity, Gathered, LineKind, SeenView,
};
use crate::patterns::{first_match, group, FoundView, PRICED_DATA, TRAILING_QUANTITY};
use crate::text::{join, trim};
use vstd::prelude::*;

verus! {

proof fn lemma_leading_price(v: Gathered, count: nat, k: nat, g: Seq<Option<FoundView>>)
    requires
        0 < k <= count,
        count <= v.lines.len(),
        first_match(PRICED_DATA@, join(v.lines.subrange(0, k as int), " "@)) == Some(g),
        forall|j: int|
            k < j <= count ==> first_match(
                PRICED_DATA@,
                join(#[trigger] v.lines.subrange(0, j), " "@),
            ) is None,
    ensures
        ({
            let r = leading_price(v, count);
            &&& r.lines == v.lines.subrange(k as int, v.lines.len() as int)
            &&& r.position.quantity == german_number(group(g, 1))
            &&& r.position.unit == group(g, 2)
            &&& r.position.unit_price == german_number(group(g, 3))
            &&& r.position.total_price == german_number(group(g, 4))
            &&& r.position.oz == v.position.oz
        }),
    decreases count,
{
    assert(v.lines.take(count as int) =~= v.lines.subrange(0, count as int));
    if k < count {
        assert(first_match(PRICED_DATA@, join(v.lines.subrange(0, count as int), " "@)) is None);
        lemma_leading_price(v, (count - 1) as nat, k, g);
    } else {
        assert(v.lines.skip(k as int) =~= v.lines.subrange(k as int, v.lines.len() as int));
    }
}

/// A price line may go over up to four lines: of the first one to four lines behind the
/// number of a position the most that make a price line give quantity, unit and prices,
/// and only those lines are used up.
pub proof fn law_price_over_lines(v: Gathered, k: nat, g: Seq<Option<FoundView>>)
    requires
        v.position.quantity is None,
        0 < k <= 4,
        k <= v.lines.len(),
        first_match(PRICED_DATA@, join(v.lines.subrange(0, k as int), " "@)) == Some(g),
        forall|j: int|
            k < j <= 4 && j <= v.lines.len() ==> first_match(
                PRICED_DATA@,
                join(#[trigger] v.lines.subrange(0, j), " "@),
            ) is None,
    ensures
        ({
            let r = with_leading_price(v);
            &&& r.lines == v.lines.subrange(k as int, v.lines.len() as int)
            &&& r.position.quantity == german_number(group(g, 1))
            &&& r.position.unit == group(g, 2)
            &&& r.position.unit_price == german_number(group(g, 3))
            &&& r.position.total_price == german_number(group(g, 4))
            &&& r.position.oz == v.position.oz
        }),
{
    let count = if v.lines.len() < 4 {
        v.lines.len()
    } else {
        4
    };
    lemma_leading_price(v, count, k, g);
}

proof fn lemma_no_leading_price(v: Gathered, count: nat)
    requires
        count <= v.lines.len(),
        forall|j: int|
            0 < j <= count ==> first_match(
                PRICED_DATA@,
                join(#[trigger] v.lines.subrange(0, j), " "@),
            ) is None,
    ensures
        leading_price(v, count) == v,
    decreases count,
{
    if count > 0 {
        assert(v.lines.take(count as int) =~= v.lines.subrange(0, count as int));
        assert(first_match(PRICED_DATA@, join(v.lines.subrange(0, count as int), " "@)) is None);
        lemma_no_leading_price(v, (count - 1) as nat);
    }
}

/// Lines that make no price line stay, and so does a position that has its quantity.
pub proof fn law_no_price_line(v: Gathered)
    requires
        v.position.quantity is Some || forall|j: int|
            0 < j <= 4 && j <= v.lines.len() ==> first_match(
                PRICED_DATA@,
                join(#[trigger] v.lines.subrange(0, j), " "@),
            ) is None,
    ensures
        with_leading_price(v) == v,
{
    if v.position.quantity is None {
        let count = if v.lines.len() < 4 {
            v.lines.len()
        } else {
            4
        };
        lemma_no_leading_price(v, count);
    }
}

proof fn lemma_quantity_line(all: Seq<Seq<char>>, n: nat, k: int)
    requires
        n <= k < all.len(),
        first_match(TRAILING_QUANTITY@, all[k]) is Some,
        forall|j: int| n <= j < k ==> first_match(TRAILING_QUANTITY@, #[trigger] all[j]) is None,
    ensures
        quantity_line(all, n) == Some(k as nat),
    decreases k - n,
{
    if n < k {
        assert(first_match(TRAILING_QUANTITY@, all[n as int]) is None);
        lemma_quantity_line(all, n + 1, k);
    }
}

/// A position without a price line has quantity, unit and prices from the first line that
/// ends with them; of that line only what stands in front is left.
pub proof fn law_quantity_behind_text(v: Gathered, k: int, g: Seq<Option<FoundView>>)
    requires
        v.position.quantity is None,
        0 <= k < v.lines.len(),
        first_match(TRAILING_QUANTITY@, v.lines[k]) == Some(g),
        forall|j: int|
            0 <= j < k ==> first_match(TRAILING_QUANTITY@, #[trigger] v.lines[j]) is None,
    ensures
        ({
            let r = with_trailing_quantity(v);
            let rest = in_front(v.lines[k], g);
            &&& r.position.quantity == german_number(group(g, 1))
            &&& r.position.unit == group(g, 2)
            &&& r.position.unit_price == german_number(group(g, 3))
            &&& r.position.total_price == german_number(group(g, 4))
            &&& r.position.oz == v.position.oz
            &&& rest.len() > 0 ==> r.lines == v.lines.subrange(0, k).push(rest) + v.lines.subrange(
                k + 1,
                v.lines.len() as int,
            )
            &&& rest.len() == 0 ==> r.lines == v.lines.subrange(0, k) + v.lines.subrange(
                k + 1,
                v.lines.len() as int,
            )
        }),
{
    lemma_quantity_line(v.lines, 0, k);
    let r = with_trailing_quantity(v);
    let rest = in_front(v.lines[k], g);
    let front = v.lines.subrange(0, k);
    let back = v.lines.subrange(k + 1, v.lines.len() as int);
    if rest.len() > 0 {
        assert(r.lines =~= front.push(rest) + back);
    } else {
        assert(r.lines =~= front + back);
    }
}

proof fn lemma_prefix(a: Seq<char>, rest: Seq<char>)
    ensures
        a.is_prefix_of(a + rest),
{
    assert((a + rest).subrange(0, a.len() as int) =~= a);
}

/// The lines at the head and the foot of a page, and those that name its columns or carry
/// a sum over, say nothing of any position, whatever else they look like.
pub proof fn law_page_lines_skipped(
    line: Seq<char>,
    rest: Seq<char>,
    seen: SeenView,
    open: bool,
    six_parts: bool,
)
    requires
        ({
            ||| line.len() == 0
            ||| seen.footer
            ||| line == "in EUR in EUR"@
            ||| line == "Angebot"@ + rest
            ||| line == "Angebotsaufforderung_"@ + rest
            ||| line == "Auftraggeber "@ + rest
            ||| line == "Bieter "@ + rest
            ||| line == "Druckdatum:"@ + rest
            ||| line == "Projekt "@ + rest
            ||| line == "Projekt:"@ + rest
            ||| line == "LV "@ + rest
            ||| line == "LV:"@ + rest
            ||| line == "Mollmann Beratende Ingenieure GmbH"@ + rest
            ||| line == "T. +49 "@ + rest
            ||| line == "Übertrag:"@ + rest
            ||| line == "OZ Menge / Einheit EP GB"@ + rest
            ||| line == "OZ Leistungsbeschreibung"@ + rest
        }),
    ensures
        line_kind(line, seen, open, six_parts) is Noise,
{
    lemma_prefix("Angebot"@, rest);
    lemma_prefix("Angebotsaufforderung_"@, rest);
    lemma_prefix("Auftraggeber "@, rest);
    lemma_prefix("Bieter "@, rest);
    lemma_prefix("Druckdatum:"@, rest);
    lemma_prefix("Projekt "@, rest);
    lemma_prefix("Projekt:"@, rest);
    lemma_prefix("LV "@, rest);
    lemma_prefix("LV:"@, rest);
    lemma_prefix("Mollmann Beratende Ingenieure GmbH"@, rest);
    lemma_prefix("T. +49 "@, rest);
    lemma_prefix("Übertrag:"@, rest);
    lemma_prefix("OZ Menge / Einheit EP GB"@, rest);
    lemma_prefix("OZ Leistungsbeschreibung"@, rest);
}

/// A line with the sum of a title or of a trade ends the position in front of it: it is
/// never taken for text.
pub proof fn law_sums_end_positions(
    line: Seq<char>,
    rest: Seq<char>,
    seen: SeenView,
    open: bool,
    six_parts: bool,
)
    requires
        seen.sum || line == "Titelsumme:"@ + rest || line == "Gewerksumme:"@ + rest,
    ensures
        !(line_kind(line, seen, open, six_parts) is Text),
{
    lemma_prefix("Titelsumme:"@, rest);
    lemma_prefix("Gewerksumme:"@, rest);
}

/// The last page is the last one with anything on it, and the first one where all are
/// blank.
pub proof fn law_last_page(pages: Seq<Seq<char>>, n: nat, k: nat)
    requires
        k <= n <= pages.len(),
        n <= usize::MAX,
        k > 0 ==> trim(pages[k - 1]).len() > 0,
        forall|i: int| k <= i < n ==> trim(#[trigger] pages[i]).len() == 0,
    ensures
        last_page(pages, n) == if k > 0 {
            k as usize
        } else {
            1
        },
    decreases n,
{
    if k < n {
        assert(trim(pages[n - 1]).len() == 0);
        law_last_page(pages, (n - 1) as nat, k);
    }
}

} // verus!
