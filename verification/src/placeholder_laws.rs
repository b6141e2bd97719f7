//! What holds of positions whose numbers have a placeholder in them, and of the order of
//! numbers.

use crate::model::{empty_position, NodeView, PositionView};
use crate::order::{arranged, at_most, law_ranking, ranking};
use crate::parser::{german_number, priced};
use crate::parser_laws::{digit_rows, lemma_digit_parts};
use crate::patterns::{
    first_match, group, group_text, is_matched, FoundView, ANY_POSITION, PLACEHOLDER_HEADING,
    PLACEHOLDER_POSITION, PRICED_DATA, TITLE_SUM,
};
use crate::placeholder_oz::{
    completed, has_oz, node_keys, noise, position_keys, recovery_of, sort_key, sorted_tree,
    supplemented, tidied, with_placeholders, written_lines, RecoveryView,
};
use crate::text::{digits_value, join, split, trim};
use crate::tree::positions_of;
use vstd::prelude::*;

verus! {

/// The keys by which numbers are ordered are the values of their parts, so that `2` stands
/// in front of `10`.
pub proof fn law_numeric_order(p: Seq<Seq<char>>)
    requires
        p.len() > 0,
        digit_rows(p),
        forall|i: int| 0 <= i < p.len() ==> digits_value(#[trigger] p[i]) <= u32::MAX,
    ensures
        sort_key(join(p, "."@)).len() == p.len(),
        forall|i: int|
            0 <= i < p.len() ==> #[trigger] sort_key(join(p, "."@))[i] == digits_value(p[i]),
{
    lemma_digit_parts(p);
    let key = sort_key(join(p, "."@));
    assert forall|i: int| 0 <= i < p.len() implies #[trigger] key[i] == digits_value(p[i]) by {
        assert(p[i].len() > 0);
        assert(crate::text::is_digit(p[i][0]));
        assert(digits_value(p[i]) <= u32::MAX);
    }
}

/// Whether headings, and the positions under each, stand in the order of their numbers, at
/// every level.
pub open spec fn in_numeric_order(nodes: Seq<NodeView>) -> bool
    decreases nodes,
{
    &&& forall|i: int, j: int|
        0 <= i < j < nodes.len() ==> at_most(
            sort_key((#[trigger] nodes[i]).oz),
            sort_key((#[trigger] nodes[j]).oz),
        )
    &&& forall|i: int| #![trigger nodes[i]]
        0 <= i < nodes.len() ==> positions_in_order(nodes[i].positions) && in_numeric_order(
            nodes[i].children,
        )
}

/// Whether positions stand in the order of their numbers.
pub open spec fn positions_in_order(v: Seq<PositionView>) -> bool {
    forall|i: int, j: int|
        0 <= i < j < v.len() ==> at_most(
            sort_key((#[trigger] v[i]).oz),
            sort_key((#[trigger] v[j]).oz),
        )
}

proof fn lemma_positions_sorted(v: Seq<PositionView>)
    ensures
        positions_in_order(arranged(v, position_keys(v))),
{
    let keys = position_keys(v);
    law_ranking(keys, v.len());
    let order = ranking(keys, v.len());
    let r = arranged(v, keys);
    assert forall|i: int, j: int| 0 <= i < j < r.len() implies at_most(
        sort_key((#[trigger] r[i]).oz),
        sort_key((#[trigger] r[j]).oz),
    ) by {
        assert(at_most(keys[order[i]], keys[order[j]]));
        assert(keys[order[i]] == sort_key(v[order[i]].oz));
        assert(keys[order[j]] == sort_key(v[order[j]].oz));
    }
}

proof fn lemma_tidied(nodes: Seq<NodeView>)
    ensures
        tidied(nodes).len() == nodes.len(),
        forall|i: int| #![trigger tidied(nodes)[i]]
            0 <= i < nodes.len() ==> tidied(nodes)[i].oz == nodes[i].oz && positions_in_order(
                tidied(nodes)[i].positions,
            ) && in_numeric_order(tidied(nodes)[i].children),
    decreases nodes, 0nat,
{
    if nodes.len() > 0 {
        let front = nodes.drop_last();
        lemma_tidied(front);
        lemma_positions_sorted(nodes.last().positions);
        lemma_sorted(nodes.last().children);
        let r = tidied(nodes);
        assert forall|i: int| #![trigger r[i]] 0 <= i < nodes.len() implies r[i].oz == nodes[i].oz
            && positions_in_order(r[i].positions) && in_numeric_order(r[i].children) by {
            if i < front.len() {
                assert(r[i] == tidied(front)[i]);
                assert(front[i] == nodes[i]);
            }
        }
    }
}

proof fn lemma_sorted(nodes: Seq<NodeView>)
    ensures
        in_numeric_order(sorted_tree(nodes)),
    decreases nodes, 1nat,
{
    lemma_tidied(nodes);
    let keys = node_keys(nodes);
    law_ranking(keys, nodes.len());
    let order = ranking(keys, nodes.len());
    let done = tidied(nodes);
    let r = sorted_tree(nodes);
    assert forall|i: int, j: int| 0 <= i < j < r.len() implies at_most(
        sort_key((#[trigger] r[i]).oz),
        sort_key((#[trigger] r[j]).oz),
    ) by {
        assert(at_most(keys[order[i]], keys[order[j]]));
        assert(r[i] == done[order[i]] && r[j] == done[order[j]]);
        assert(keys[order[i]] == sort_key(nodes[order[i]].oz));
        assert(keys[order[j]] == sort_key(nodes[order[j]].oz));
    }
    assert forall|i: int| #![trigger r[i]] 0 <= i < r.len() implies positions_in_order(
        r[i].positions,
    ) && in_numeric_order(r[i].children) by {
        assert(0 <= order[i] < nodes.len());
        assert(r[i] == done[order[i]]);
    }
}

/// A sorted tree is in the order of its numbers, at every level.
pub proof fn law_tree_sorted(nodes: Seq<NodeView>)
    ensures
        in_numeric_order(sorted_tree(nodes)),
{
    lemma_sorted(nodes);
}

/// A line with a number that has a placeholder in its third part, and a price behind the
/// number, is read as a position with `00` in that part and with the quantity, unit and
/// prices of the line; the text of the next line is its short text.
pub proof fn law_placeholder_position_read(
    s: RecoveryView,
    first: Seq<char>,
    second: Seq<char>,
    g: Seq<Option<FoundView>>,
    h: Seq<Option<FoundView>>,
    page: usize,
)
    requires
        s.current is None,
        s.lines.len() == 0,
        first.len() > 0,
        !noise(first),
        first_match(PLACEHOLDER_POSITION@, first) == Some(g),
        first_match(PRICED_DATA@, group_text(g, 4)) == Some(h),
        german_number(group(h, 1)) is Some,
        trim(second).len() > 0,
        !noise(second),
        first_match(PLACEHOLDER_POSITION@, second) is None,
        first_match(PLACEHOLDER_HEADING@, second) is None,
        !is_matched(TITLE_SUM@, second),
        !is_matched(ANY_POSITION@, second),
        second != "Eventualposition ohne GB"@,
        second != "Fortsetzung von vorheriger Seite"@,
        second != "Fortsetzung auf nächster Seite"@,
    ensures
        ({
            let after = s.line(first, page).line(second, page).finished(page);
            let p = after.recovered.last();
            &&& after.recovered.len() == s.recovered.len() + 1
            &&& after.recovered.drop_last() == s.recovered
            &&& p.oz == group_text(g, 1) + "."@ + group_text(g, 2) + ".00."@ + group_text(g, 3)
            &&& p.quantity == german_number(group(h, 1))
            &&& p.unit == group(h, 2)
            &&& p.unit_price == german_number(group(h, 3))
            &&& p.total_price == german_number(group(h, 4))
            &&& p.short_text == second
            &&& p.long_text.len() == 0
            &&& p.page_from == Some(page) && p.page_to == Some(page)
            &&& after.current is None
        }),
{
    assert(s.lines =~= Seq::<Seq<char>>::empty());
    let none = Seq::<char>::empty();
    assert(second.len() > 0) by {
        if second.len() == 0 {
            assert(second =~= none);
            assert(trim(none) =~= none);
        }
    }
    let one = s.line(first, page);
    let two = one.line(second, page);
    assert(two.lines =~= seq![second]);
    assert(seq![second].drop_last() =~= Seq::<Seq<char>>::empty());
    assert(written_lines(Seq::<Seq<char>>::empty()) =~= Seq::<Seq<char>>::empty());
    assert(written_lines(seq![second]) =~= seq![second]);
    assert(seq![second].skip(1) =~= Seq::<Seq<char>>::empty());
    let after = two.finished(page);
    assert(after.recovered.drop_last() =~= s.recovered);
}

/// A recovered position whose number the bill has already is not put in again.
pub proof fn law_known_numbers_stay_single(
    roots: Seq<NodeView>,
    found: Seq<PositionView>,
    headings: Seq<crate::parser::HeadingView>,
    n: nat,
)
    requires
        0 < n <= found.len(),
    ensures
        ({
            let before = supplemented(roots, found, headings, (n - 1) as nat);
            let after = supplemented(roots, found, headings, n);
            let known = exists|i: int|
                0 <= i < positions_of(before.0).len() && (#[trigger] positions_of(before.0)[i]).oz
                    == found[n - 1].oz;
            &&& known ==> after == before
            &&& !known ==> after.1 == before.1 + 1
        }),
{
}

} // verus!
