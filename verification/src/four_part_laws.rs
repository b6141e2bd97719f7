//! What holds of bills that are read from documents in which numbers have four parts.

use crate::bill_laws::law_filed_once;
use crate::four_part_parser::{
    bill_of_text, completed, noise, pages_read, path_of, ReadView,
};
use crate::model::{empty_boq, empty_position, BoqView, NodeView, PositionView};
use crate::outline::lemma_split_len;
use crate::outline_laws::{lemma_no_dots, well_placed};
use crate::parser::{
    bill_warnings, filed, filled_lines, german_number, position_warnings, priced,
    with_heading_titles, with_metadata, HeadingView,
};
use crate::parser_laws::{
    comparable, law_split_undoes_join, lemma_filed_well, lemma_metadata_keeps, lemma_split_whole,
    lemma_titles_keep, lemma_titles_placed,
};
use crate::patterns::{
    first_match, group, group_text, is_matched, FoundView, FOOTER, OZ_AND_REST, PRICED_DATA,
    SUBTITLE_SUM, TWO_DIGIT_HEADING,
};
use crate::text::{contains, is_digit, join, lines, single_spaced, split, trim};
use crate::tree::positions_of;
use vstd::prelude::*;

verus! {

proof fn lemma_no_noise(line: Seq<char>)
    requires
        line.len() > 0,
        line[0] != 'A' && line[0] != 'B' && line[0] != 'P' && line[0] != 'L' && line[0] != 'O',
        !is_matched(FOOTER@, line),
    ensures
        !noise(line),
{
    reveal_strlit("Angebot");
    reveal_strlit("Auftraggeber ");
    reveal_strlit("Bieter ");
    reveal_strlit("Projekt ");
    reveal_strlit("LV ");
    reveal_strlit("OZ Menge / Einheit EP GB");
    assert forall|p: Seq<char>| p.len() > 0 && p[0] != line[0] implies !(
    #[trigger] p.is_prefix_of(line)) by {
        if p.is_prefix_of(line) {
            assert(p[0] == line.subrange(0, p.len() as int)[0]);
        }
    }
}

/// Lines in which no position starts leave a document without positions.
proof fn lemma_front_read(start: ReadView, all: Seq<Seq<char>>, n: nat, page: usize)
    requires
        n <= all.len(),
        start.current is None,
        forall|k: int|
            0 <= k < n ==> first_match(OZ_AND_REST@, single_spaced(#[trigger] all[k])) is None,
    ensures
        ({
            let s = start.page_lines(all, n, page);
            &&& s.current is None
            &&& s.lines == start.lines
            &&& s.boq == start.boq
        }),
    decreases n,
{
    if n > 0 {
        lemma_front_read(start, all, (n - 1) as nat, page);
        assert(first_match(OZ_AND_REST@, single_spaced(all[n - 1])) is None);
    }
}

/// The bill read from a text with a number line of four parts that is a price line behind
/// its number, and a line of text behind it, and in front of them only lines in which no
/// position starts, has exactly one position: with that number, the quantity, the unit,
/// the unit price and the total of the price line, and the text as its short text. It
/// stands under the headings that its number calls for.
pub proof fn law_four_part_position_read(
    source: Seq<char>,
    text: Seq<char>,
    front: Seq<Seq<char>>,
    first: Seq<char>,
    second: Seq<char>,
    g: Seq<Option<FoundView>>,
    h: Seq<Option<FoundView>>,
)
    requires
        !text.contains('\u{c}'),
        lines(text) == front.push(first).push(second),
        forall|k: int|
            0 <= k < front.len() ==> first_match(
                OZ_AND_REST@,
                single_spaced(#[trigger] front[k]),
            ) is None,
        ({
            let l1 = single_spaced(first);
            let l2 = single_spaced(second);
            &&& l1.len() > 0 && is_digit(l1[0])
            &&& !is_matched(FOOTER@, l1)
            &&& first_match(OZ_AND_REST@, l1) == Some(g)
            &&& split(group_text(g, 1), '.').len() == 4
            &&& first_match(PRICED_DATA@, group_text(g, 2)) == Some(h)
            &&& !noise(l2)
            &&& first_match(OZ_AND_REST@, l2) is None
            &&& first_match(TWO_DIGIT_HEADING@, l2) is None
            &&& !is_matched(SUBTITLE_SUM@, l2)
            &&& l2 != "Eventualposition ohne GB"@
            &&& l2 != "Fortsetzung von vorheriger Seite"@
            &&& l2 != "Fortsetzung auf nächster Seite"@
        }),
    ensures
        ({
            let bill = bill_of_text(source, text);
            let p = positions_of(bill->Ok_0.roots)[0];
            let only = contains(group_text(g, 2), "Nur Einh.-Pr."@);
            &&& bill is Ok ==> {
                &&& positions_of(bill->Ok_0.roots).len() == 1
                &&& p.oz == group_text(g, 1)
                &&& p.quantity == german_number(group(h, 1))
                &&& p.unit == group(h, 2)
                &&& p.unit_price == german_number(group(h, 3))
                &&& p.total_price == german_number(group(h, 4))
                &&& p.short_text == single_spaced(second)
                &&& p.long_text.len() == 0
                &&& p.page_from == Some(1usize) && p.page_to == Some(1usize)
                &&& p.provisional == only && p.price_only == only
                &&& well_placed(bill->Ok_0.roots, seq![])
            }
            &&& (forall|p: PositionView|
                p.quantity == german_number(group(h, 1)) && p.unit_price == german_number(
                    group(h, 3),
                ) && p.total_price == german_number(group(h, 4)) ==> #[trigger] comparable(p))
                ==> bill is Ok
        }),
{
    broadcast use vstd::seq_lib::group_to_multiset_ensures;

    let l1 = single_spaced(first);
    let l2 = single_spaced(second);
    let pages = split(text, '\u{c}');
    lemma_split_whole(text, '\u{c}');
    let all = lines(text);
    let n = front.len();
    let empty = empty_boq(source);
    let zero = pages_read(empty, pages, 0);
    lemma_metadata_keeps(empty, all, all.len());
    let s0 = ReadView { boq: with_metadata(empty, all, all.len()), ..zero };
    assert(pages_read(empty, pages, 1) == zero.page(text, 1));
    assert forall|k: int| 0 <= k < n implies first_match(
        OZ_AND_REST@,
        single_spaced(#[trigger] all[k]),
    ) is None by {
        assert(all[k] == front[k]);
    }
    lemma_front_read(s0, all, n, 1);
    let s1 = s0.page_lines(all, n, 1);
    assert(all[n as int] == first);
    assert(all[n as int + 1] == second);
    lemma_no_noise(l1);
    let s2 = s0.page_lines(all, n + 1, 1);
    assert(s2 == s1.begun(g, 1));
    let s3 = s0.page_lines(all, n + 2, 1);
    assert(s3 == s2.continued(l2, 1));
    assert(s3.lines =~= seq![l2]);
    assert(all.len() == n + 2);
    let position = s3.current->0;
    let done = completed(position, s3.lines, 0);
    assert(filled_lines(seq![l2]) =~= seq![l2]) by {
        assert(seq![l2].drop_last() =~= Seq::<Seq<char>>::empty());
        assert(filled_lines(Seq::<Seq<char>>::empty()) =~= Seq::<Seq<char>>::empty());
    }
    assert(seq![l2].skip(1) =~= Seq::<Seq<char>>::empty());
    let read = s3.finished(0);
    let parts = split(done.oz, '.');
    let path = parts.take(3);
    lemma_no_dots(done.oz);
    assert forall|i: int| 0 <= i < path.len() implies !(#[trigger] path[i]).contains('.') by {
        assert(path[i] == parts[i]);
    }
    law_split_undoes_join(path);
    assert(path_of(done.oz) == path);
    assert(parts.drop_last() =~= path);
    assert(s3.boq.roots =~= Seq::<NodeView>::empty());
    law_filed_once(s3.boq.roots, path, 0, s3.headings, 1, done);
    assert(path.take(0) =~= seq![]);
    lemma_filed_well(s3.boq.roots, path, 0, s3.headings, 1, done);
    let roots = filed(s3.boq.roots, path, 0, s3.headings, 1, done);
    let found = positions_of(roots);
    assert(positions_of(s3.boq.roots) =~= Seq::<PositionView>::empty());
    assert(found.to_multiset().len() == 1);
    assert(found.len() == 1);
    assert(found.to_multiset().count(done) > 0);
    assert(found.contains(done));
    assert(found[0] == done);
    lemma_titles_keep(roots, s3.headings);
    lemma_titles_placed(roots, s3.headings, seq![]);
    let ps = positions_of(with_heading_titles(roots, s3.headings));
    assert(ps == found);
    assert(bill_warnings(ps, 0) is Some);
    assert(bill_warnings(ps, 1) is Some == position_warnings(ps.take(0), ps[0]) is Some);
    if forall|p: PositionView|
        p.quantity == german_number(group(h, 1)) && p.unit_price == german_number(group(h, 3))
            && p.total_price == german_number(group(h, 4)) ==> #[trigger] comparable(p) {
        assert(comparable(done));
    }
}

/// A line with a heading ends the position in front of it and is noted with its number,
/// its title and its page.
pub proof fn law_four_part_heading_noted(state: ReadView, line: Seq<char>, page: usize)
    requires
        !noise(line),
        first_match(OZ_AND_REST@, line) is None,
        first_match(TWO_DIGIT_HEADING@, line) is Some,
    ensures
        ({
            let g = first_match(TWO_DIGIT_HEADING@, line)->0;
            let after = state.line(line, page);
            &&& after.current is None
            &&& after.headings == state.headings.push(
                HeadingView { oz: group_text(g, 1), title: trim(group_text(g, 2)), page },
            )
            &&& after.preamble == state.preamble
            &&& state.current is None ==> after.boq == state.boq
        }),
{
}

/// How many of the first `n` lines of a page start a position.
pub open spec fn starts_on_page(all: Seq<Seq<char>>, n: nat) -> nat
    decreases n,
{
    if n == 0 {
        0
    } else {
        let line = single_spaced(all[n - 1]);
        starts_on_page(all, (n - 1) as nat) + (if !noise(line) && first_match(
            OZ_AND_REST@,
            line,
        ) is Some {
            1nat
        } else {
            0nat
        })
    }
}

/// How many lines of the first `n` pages start a position.
pub open spec fn starts_in(pages: Seq<Seq<char>>, n: nat) -> nat
    decreases n,
{
    if n == 0 {
        0
    } else {
        starts_in(pages, (n - 1) as nat) + starts_on_page(
            lines(pages[n - 1]),
            lines(pages[n - 1]).len(),
        )
    }
}

spec fn read_so_far(s: ReadView) -> nat {
    positions_of(s.boq.roots).len() + (if s.current is Some {
        1nat
    } else {
        0nat
    })
}

proof fn lemma_finished_count(s: ReadView, page: usize)
    ensures
        read_so_far(s.finished(page)) == read_so_far(s),
        s.finished(page).current is None,
{
    broadcast use vstd::seq_lib::group_to_multiset_ensures;

    if let Some(position) = s.current {
        let done = completed(position, s.lines, page);
        let fallback = match done.page_from {
            Some(p) => p,
            None => 0,
        };
        let p = split(done.oz, '.');
        lemma_split_len(
            join(
                if p.len() > 3 {
                    p.take(3)
                } else {
                    p
                },
                "."@,
            ),
            '.',
        );
        law_filed_once(s.boq.roots, path_of(done.oz), 0, s.headings, fallback, done);
        let found = positions_of(s.finished(page).boq.roots);
        assert(found.len() == found.to_multiset().len());
        assert(positions_of(s.boq.roots).len() == positions_of(s.boq.roots).to_multiset().len());
    }
}

proof fn lemma_page_count(s: ReadView, all: Seq<Seq<char>>, n: nat, page: usize)
    requires
        n <= all.len(),
    ensures
        read_so_far(s.page_lines(all, n, page)) == read_so_far(s) + starts_on_page(all, n),
    decreases n,
{
    if n > 0 {
        lemma_page_count(s, all, (n - 1) as nat, page);
        let before = s.page_lines(all, (n - 1) as nat, page);
        lemma_finished_count(before, page);
    }
}

proof fn lemma_pages_count(boq: BoqView, pages: Seq<Seq<char>>, n: nat)
    requires
        n <= pages.len(),
        boq.roots.len() == 0,
    ensures
        read_so_far(pages_read(boq, pages, n)) == starts_in(pages, n),
    decreases n,
{
    if n > 0 {
        lemma_pages_count(boq, pages, (n - 1) as nat);
        let before = pages_read(boq, pages, (n - 1) as nat);
        let all = lines(pages[n - 1]);
        lemma_metadata_keeps(before.boq, all, all.len());
        let s = ReadView { boq: with_metadata(before.boq, all, all.len()), ..before };
        lemma_page_count(s, all, all.len(), n as usize);
    }
}

/// A bill has as many positions as its text has lines in which a position starts.
pub proof fn law_each_four_part_start_one_position(source: Seq<char>, text: Seq<char>)
    requires
        bill_of_text(source, text) is Ok,
    ensures
        positions_of(bill_of_text(source, text)->Ok_0.roots).len() == starts_in(
            split(text, '\u{c}'),
            split(text, '\u{c}').len(),
        ),
{
    let pages = split(text, '\u{c}');
    let empty = empty_boq(source);
    lemma_pages_count(empty, pages, pages.len());
    let read = pages_read(empty, pages, pages.len());
    lemma_finished_count(read, 0);
    let done = read.finished(0);
    lemma_titles_keep(done.boq.roots, done.headings);
}

} // verus!
