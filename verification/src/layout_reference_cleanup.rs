//! Repairs of positions that were read from a text which only names their number: real
//! positions have their number at the left margin of the page, numbers that a text names
//! are indented.

use crate::layout::{
    fragment_views, fragments_of, layout_pages, page_fragments, page_views, pages_of, Fragment,
    FragmentView, PageView,
};
use crate::model::{
    group_model_views, node_views, position_views, BillOfQuantities, BoqView, Node, NodeView,
    Position, PositionView,
};
use crate::order::{arrange, arranged, key_of, keys_of, law_ranking};
use crate::patterns::{captured_text, first_match, group_text, Pattern, OZ_AT_START};
use crate::reference_cleanup::{
    append_reference_continuation, refresh_parser_warnings, warnings_kept, with_continuation,
};
use crate::text::{join, joined, normalize_line, parts, same, single_spaced, split, texts, trimmed};
use crate::tree::{lemma_positions_concat, positions_of};
use crate::x83::lacks;
use vstd::prelude::*;

verus! {

/// What a position number on a page is.
#[verifier::ext_equal]
pub struct OccurrenceView {
    pub page: nat,
    pub top: int,
    pub left: int,
    pub oz: Seq<char>,
}

/// A position number at the start of a text on a page, with its place.
#[derive(Default)]
pub struct OzOccurrence {
    pub page: usize,
    pub top: i32,
    pub left: i32,
    pub oz: String,
}

impl View for OzOccurrence {
    type V = OccurrenceView;

    open spec fn view(&self) -> OccurrenceView {
        OccurrenceView {
            page: self.page as nat,
            top: self.top as int,
            left: self.left as int,
            oz: self.oz@,
        }
    }
}

pub open spec fn occurrence_views(v: Seq<OzOccurrence>) -> Seq<OccurrenceView> {
    Seq::new(v.len(), |i: int| v[i]@)
}

/// The numbers at the start of the texts of a page.
pub open spec fn numbers_on(v: Seq<FragmentView>, page: nat) -> Seq<OccurrenceView>
    decreases v.len(),
{
    if v.len() == 0 {
        seq![]
    } else {
        let before = numbers_on(v.drop_last(), page);
        let f = v.last();
        match first_match(OZ_AT_START@, single_spaced(f.text)) {
            Some(g) => before.push(
                OccurrenceView { page, top: f.top, left: f.left, oz: group_text(g, 1) },
            ),
            None => before,
        }
    }
}

/// The numbers at the start of the texts of all pages.
pub open spec fn numbers_in(pages: Seq<PageView>) -> Seq<OccurrenceView>
    decreases pages.len(),
{
    if pages.len() == 0 {
        seq![]
    } else {
        let page = pages.last();
        numbers_in(pages.drop_last()) + numbers_on(fragments_of(page.body), page.number)
    }
}

pub open spec fn place_key(o: OccurrenceView) -> Seq<int> {
    seq![o.page as int, o.top, o.left]
}

pub open spec fn place_keys(v: Seq<OccurrenceView>) -> Seq<Seq<int>> {
    Seq::new(v.len(), |i: int| place_key(v[i]))
}

/// The numbers of a layout by page, from top to bottom and from left to right.
pub open spec fn occurrences_of(layout: Seq<char>) -> Seq<OccurrenceView> {
    let found = numbers_in(pages_of(layout));
    arranged(found, place_keys(found))
}

fn add_numbers(found: &mut Vec<OzOccurrence>, fragments: &Vec<Fragment>, page: usize, oz: &Pattern)
    requires
        oz@ == OZ_AT_START@,
    ensures
        occurrence_views(final(found)@) == occurrence_views(old(found)@) + numbers_on(
            fragment_views(fragments@),
            page as nat,
        ),
{
    let ghost start = occurrence_views(found@);
    let ghost all = fragment_views(fragments@);
    let mut i: usize = 0;
    assert(start + numbers_on(all.take(0), page as nat) =~= start);
    while i < fragments.len()
        invariant
            i <= fragments@.len(),
            oz@ == OZ_AT_START@,
            all == fragment_views(fragments@),
            occurrence_views(found@) == start + numbers_on(all.take(i as int), page as nat),
        decreases fragments@.len() - i,
    {
        assert(all.take(i + 1).drop_last() =~= all.take(i as int));
        assert(all.take(i + 1).last() == fragments@[i as int]@);
        let ghost before = occurrence_views(found@);
        let text = normalize_line(fragments[i].text.as_str());
        if let Some(g) = oz.first(text.as_str()) {
            let next = OzOccurrence {
                page,
                top: fragments[i].top,
                left: fragments[i].left,
                oz: captured_text(&g, 1),
            };
            let ghost added = next@;
            found.push(next);
            assert(occurrence_views(found@) =~= before.push(added));
        }
        assert(occurrence_views(found@) =~= start + numbers_on(all.take(i + 1), page as nat));
        i = i + 1;
    }
    assert(all.take(fragments@.len() as int) =~= all);
}

fn place_keys_of(found: &Vec<OzOccurrence>) -> (r: Vec<Vec<i128>>)
    ensures
        keys_of(r@) == place_keys(occurrence_views(found@)),
{
    let mut r: Vec<Vec<i128>> = Vec::new();
    let mut i: usize = 0;
    while i < found.len()
        invariant
            i <= found@.len(),
            r@.len() == i,
            forall|j: int| 0 <= j < i ==> key_of((#[trigger] r@[j])@) == place_key(found@[j]@),
        decreases found@.len() - i,
    {
        let mut key: Vec<i128> = Vec::new();
        key.push(found[i].page as i128);
        key.push(found[i].top as i128);
        key.push(found[i].left as i128);
        assert(key_of(key@) =~= place_key(found@[i as int]@));
        r.push(key);
        i = i + 1;
    }
    assert(keys_of(r@) =~= place_keys(occurrence_views(found@)));
    r
}

/// The position numbers in a layout, each with its place.
pub fn parse_occurrences(layout: &str) -> (r: Vec<OzOccurrence>)
    ensures
        occurrence_views(r@) == occurrences_of(layout@),
{
    let pages = layout_pages(layout);
    let oz = Pattern::new(OZ_AT_START);
    let ghost all = page_views(pages@);
    let mut found: Vec<OzOccurrence> = Vec::new();
    let mut i: usize = 0;
    assert(occurrence_views(found@) =~= numbers_in(all.take(0)));
    while i < pages.len()
        invariant
            i <= pages@.len(),
            oz@ == OZ_AT_START@,
            all == page_views(pages@),
            occurrence_views(found@) == numbers_in(all.take(i as int)),
        decreases pages@.len() - i,
    {
        assert(all.take(i + 1).drop_last() =~= all.take(i as int));
        assert(all.take(i + 1).last() == pages@[i as int]@);
        let fragments = page_fragments(pages[i].body.as_str());
        add_numbers(&mut found, &fragments, pages[i].number, &oz);
        i = i + 1;
    }
    assert(all.take(pages@.len() as int) =~= all);
    let keys = place_keys_of(&found);
    let ghost views = occurrence_views(found@);
    assert(keys@.len() == keys_of(keys@).len());
    proof {
        law_ranking(keys_of(keys@), found@.len());
    }
    let r = arrange(found, &keys);
    assert(occurrence_views(r@) =~= arranged(views, place_keys(views)));
    r
}

/// Whether a position starts on a page under this number and has neither quantity, unit
/// nor price.
pub open spec fn unpriced_at(p: PositionView, oz: Seq<char>, page: nat) -> bool {
    &&& p.oz == oz
    &&& p.page_from is Some && p.page_from->0 == page
    &&& p.quantity is None
    &&& lacks(p.unit)
    &&& p.unit_price is None
    &&& p.total_price is None
}

fn is_unpriced_at(p: &Position, oz: &str, page: usize) -> (r: bool)
    ensures
        r == unpriced_at(p@, oz@, page as nat),
{
    let unit = match &p.unit {
        Some(unit) => trimmed(unit.as_str()).as_str().is_empty(),
        None => true,
    };
    let here = match p.page_from {
        Some(from) => from == page,
        None => false,
    };
    same(p.oz.as_str(), oz) && here && p.quantity.is_none() && unit && p.unit_price.is_none()
        && p.total_price.is_none()
}

/// The first position from `n` on that is such a one.
pub open spec fn first_unpriced(v: Seq<PositionView>, oz: Seq<char>, page: nat, n: nat) -> Option<nat>
    decreases v.len() - n,
{
    if n >= v.len() {
        None
    } else if unpriced_at(v[n as int], oz, page) {
        Some(n)
    } else {
        first_unpriced(v, oz, page, n + 1)
    }
}

/// The tree without the first such position, and the position. Those of a heading come
/// before those of the headings under it.
pub open spec fn without_unpriced(nodes: Seq<NodeView>, oz: Seq<char>, page: nat) -> Option<
    (Seq<NodeView>, PositionView),
>
    decreases nodes,
{
    if nodes.len() == 0 {
        None
    } else {
        let node = nodes[0];
        let rest = nodes.skip(1);
        match first_unpriced(node.positions, oz, page, 0) {
            Some(i) => Some(
                (
                    seq![NodeView { positions: node.positions.remove(i as int), ..node }] + rest,
                    node.positions[i as int],
                ),
            ),
            None => match without_unpriced(node.children, oz, page) {
                Some((children, p)) => Some((seq![NodeView { children, ..node }] + rest, p)),
                None => match without_unpriced(rest, oz, page) {
                    Some((others, p)) => Some((seq![node] + others, p)),
                    None => None,
                },
            },
        }
    }
}

/// What was done to the headings from some index on, seen from all headings.
pub open spec fn behind_front(front: Seq<NodeView>, v: Option<(Seq<NodeView>, PositionView)>) -> Option<
    (Seq<NodeView>, PositionView),
> {
    match v {
        Some((rest, p)) => Some((front + rest, p)),
        None => None,
    }
}

fn find_unpriced(v: &Vec<Position>, oz: &str, page: usize) -> (r: Option<usize>)
    ensures
        (match r {
            Some(i) => i < v@.len() && first_unpriced(position_views(v@), oz@, page as nat, 0) == Some(
                i as nat,
            ),
            None => first_unpriced(position_views(v@), oz@, page as nat, 0) is None,
        }),
{
    let ghost all = position_views(v@);
    let mut i: usize = 0;
    while i < v.len()
        invariant
            i <= v@.len(),
            all == position_views(v@),
            first_unpriced(all, oz@, page as nat, 0) == first_unpriced(all, oz@, page as nat, i as nat),
        decreases v@.len() - i,
    {
        assert(all[i as int] == v@[i as int]@);
        if is_unpriced_at(&v[i], oz, page) {
            return Some(i);
        }
        i = i + 1;
    }
    None
}

pub open spec fn opt_position(v: Option<Position>) -> Option<PositionView> {
    match v {
        Some(p) => Some(p@),
        None => None,
    }
}

/// What remains of a tree, and the position that was taken from it, or the tree as it is.
pub open spec fn taken(nodes: Seq<NodeView>, oz: Seq<char>, page: nat) -> (
    Seq<NodeView>,
    Option<PositionView>,
) {
    match without_unpriced(nodes, oz, page) {
        Some((rest, p)) => (rest, Some(p)),
        None => (nodes, None),
    }
}

pub fn take_unpriced_position(nodes: &mut Vec<Node>, oz: &str, page: usize) -> (r: Option<Position>)
    ensures
        (node_views(final(nodes)@), opt_position(r)) == taken(
            node_views(old(nodes)@),
            oz@,
            page as nat,
        ),
    decreases *old(nodes),
{
    broadcast use group_model_views;
    let ghost all = node_views(nodes@);
    let ghost start = *nodes;
    let len: usize = nodes.len();
    let mut i: usize = 0;
    assert(all.skip(0) =~= all);
    proof {
        let v = without_unpriced(all, oz@, page as nat);
        if v is Some {
            assert(all.take(0) + (v->0).0 =~= (v->0).0);
        }
    }
    while i < len
        invariant
            i <= len == nodes@.len() == all.len(),
            start == *old(nodes),
            node_views(nodes@) == all,
            start@.len() == len,
            all == node_views(start@),
            forall|j: int| i <= j < len ==> nodes@[j] == start@[j],
            without_unpriced(all, oz@, page as nat) == behind_front(
                all.take(i as int),
                without_unpriced(all.skip(i as int), oz@, page as nat),
            ),
        decreases len - i,
    {
        broadcast use group_model_views;
        let ghost tail = all.skip(i as int);
        let ghost rest = all.skip(i + 1);
        assert(tail[0] == all[i as int]);
        assert(tail.skip(1) =~= rest);
        let mut node = Node::default();
        std::mem::swap(&mut node, &mut nodes[i]);
        assert(node == start@[i as int]);
        let ghost before = node@;
        assert(before == all[i as int]);
        if let Some(k) = find_unpriced(&node.positions, oz, page) {
            let ghost own = position_views(node.positions@);
            let p = node.positions.remove(k);
            assert(position_views(node.positions@) =~= own.remove(k as int));
            let ghost after = node@;
            nodes.set(i, node);
            assert(node_views(nodes@) =~= all.take(i as int) + (seq![after] + rest));
            return Some(p);
        }
        assert(decreases_to!(start => start@[i as int].children));
        let found = take_unpriced_position(&mut node.children, oz, page);
        let ghost after = node@;
        nodes.set(i, node);
        assert(node_views(nodes@) =~= all.update(i as int, after));
        if let Some(p) = found {
            assert(node_views(nodes@) =~= all.take(i as int) + (seq![after] + rest));
            return Some(p);
        }
        assert(after == before);
        proof {
            let v = without_unpriced(rest, oz@, page as nat);
            if v is Some {
                assert(all.take(i as int) + (seq![before] + (v->0).0) =~= all.take(i + 1) + (v->0).0);
            }
        }
        i = i + 1;
        assert(node_views(nodes@) =~= all);
    }
    None
}

/// The first position from `n` on that starts on a page under this number.
pub open spec fn first_at(v: Seq<PositionView>, oz: Seq<char>, page: nat, n: nat) -> Option<nat>
    decreases v.len() - n,
{
    if n >= v.len() {
        None
    } else if v[n as int].oz == oz && v[n as int].page_from is Some && v[n as int].page_from->0
        == page {
        Some(n)
    } else {
        first_at(v, oz, page, n + 1)
    }
}

/// The tree in which the first position that starts on a page under a number has got the
/// text of another.
pub open spec fn with_reference(
    nodes: Seq<NodeView>,
    oz: Seq<char>,
    page: nat,
    candidate: PositionView,
) -> Option<Seq<NodeView>>
    decreases nodes,
{
    if nodes.len() == 0 {
        None
    } else {
        let node = nodes[0];
        let rest = nodes.skip(1);
        match first_at(node.positions, oz, page, 0) {
            Some(i) => Some(
                seq![
                    NodeView {
                        positions: node.positions.update(
                            i as int,
                            with_continuation(node.positions[i as int], candidate),
                        ),
                        ..node
                    },
                ] + rest,
            ),
            None => match with_reference(node.children, oz, page, candidate) {
                Some(children) => Some(seq![NodeView { children, ..node }] + rest),
                None => match with_reference(rest, oz, page, candidate) {
                    Some(others) => Some(seq![node] + others),
                    None => None,
                },
            },
        }
    }
}

pub open spec fn changed_behind(front: Seq<NodeView>, v: Option<Seq<NodeView>>) -> Option<
    Seq<NodeView>,
> {
    match v {
        Some(rest) => Some(front + rest),
        None => None,
    }
}

fn find_at(v: &Vec<Position>, oz: &str, page: usize) -> (r: Option<usize>)
    ensures
        (match r {
            Some(i) => i < v@.len() && first_at(position_views(v@), oz@, page as nat, 0) == Some(
                i as nat,
            ),
            None => first_at(position_views(v@), oz@, page as nat, 0) is None,
        }),
{
    let ghost all = position_views(v@);
    let mut i: usize = 0;
    while i < v.len()
        invariant
            i <= v@.len(),
            all == position_views(v@),
            first_at(all, oz@, page as nat, 0) == first_at(all, oz@, page as nat, i as nat),
        decreases v@.len() - i,
    {
        assert(all[i as int] == v@[i as int]@);
        let here = match v[i].page_from {
            Some(from) => from == page,
            None => false,
        };
        if here && same(v[i].oz.as_str(), oz) {
            return Some(i);
        }
        i = i + 1;
    }
    None
}

/// Adds the text of a position to the first one that starts on a page under a number;
/// tells whether there is one.
pub fn append_reference(nodes: &mut Vec<Node>, oz: &str, page: usize, candidate: &Position) -> (r: bool)
    ensures
        (match with_reference(node_views(old(nodes)@), oz@, page as nat, candidate@) {
            Some(after) => r && node_views(final(nodes)@) == after,
            None => !r && node_views(final(nodes)@) == node_views(old(nodes)@),
        }),
    decreases *old(nodes),
{
    broadcast use group_model_views;
    let ghost all = node_views(nodes@);
    let ghost start = *nodes;
    let ghost c = candidate@;
    let len: usize = nodes.len();
    let mut i: usize = 0;
    assert(all.skip(0) =~= all);
    proof {
        let v = with_reference(all, oz@, page as nat, c);
        if v is Some {
            assert(all.take(0) + v->0 =~= v->0);
        }
    }
    while i < len
        invariant
            i <= len == nodes@.len() == all.len(),
            start == *old(nodes),
            c == candidate@,
            node_views(nodes@) == all,
            start@.len() == len,
            all == node_views(start@),
            forall|j: int| i <= j < len ==> nodes@[j] == start@[j],
            with_reference(all, oz@, page as nat, c) == changed_behind(
                all.take(i as int),
                with_reference(all.skip(i as int), oz@, page as nat, c),
            ),
        decreases len - i,
    {
        broadcast use group_model_views;
        let ghost tail = all.skip(i as int);
        let ghost rest = all.skip(i + 1);
        assert(tail[0] == all[i as int]);
        assert(tail.skip(1) =~= rest);
        let mut node = Node::default();
        std::mem::swap(&mut node, &mut nodes[i]);
        assert(node == start@[i as int]);
        let ghost before = node@;
        assert(before == all[i as int]);
        if let Some(k) = find_at(&node.positions, oz, page) {
            let ghost own = position_views(node.positions@);
            let mut position = Position::default();
            std::mem::swap(&mut position, &mut node.positions[k]);
            append_reference_continuation(&mut position, candidate);
            let ghost changed = position@;
            node.positions.set(k, position);
            assert(position_views(node.positions@) =~= own.update(k as int, changed));
            let ghost after = node@;
            nodes.set(i, node);
            assert(node_views(nodes@) =~= all.take(i as int) + (seq![after] + rest));
            return true;
        }
        assert(decreases_to!(start => start@[i as int].children));
        let found = append_reference(&mut node.children, oz, page, candidate);
        let ghost after = node@;
        nodes.set(i, node);
        assert(node_views(nodes@) =~= all.update(i as int, after));
        if found {
            assert(node_views(nodes@) =~= all.take(i as int) + (seq![after] + rest));
            return true;
        }
        assert(after == before);
        proof {
            let v = with_reference(rest, oz@, page as nat, c);
            if v is Some {
                assert(all.take(i as int) + (seq![before] + v->0) =~= all.take(i + 1) + v->0);
            }
        }
        i = i + 1;
        assert(node_views(nodes@) =~= all);
    }
    false
}

/// The tree with a position added to the first heading of this number.
pub open spec fn with_position_under(nodes: Seq<NodeView>, oz: Seq<char>, p: PositionView) -> Option<
    Seq<NodeView>,
>
    decreases nodes,
{
    if nodes.len() == 0 {
        None
    } else {
        let node = nodes[0];
        let rest = nodes.skip(1);
        if node.oz == oz {
            Some(seq![NodeView { positions: node.positions.push(p), ..node }] + rest)
        } else {
            match with_position_under(node.children, oz, p) {
                Some(children) => Some(seq![NodeView { children, ..node }] + rest),
                None => match with_position_under(rest, oz, p) {
                    Some(others) => Some(seq![node] + others),
                    None => None,
                },
            }
        }
    }
}

fn insert_under(nodes: &mut Vec<Node>, oz: &str, position: &Position) -> (r: bool)
    ensures
        (match with_position_under(node_views(old(nodes)@), oz@, position@) {
            Some(after) => r && node_views(final(nodes)@) == after,
            None => !r && node_views(final(nodes)@) == node_views(old(nodes)@),
        }),
    decreases *old(nodes),
{
    broadcast use group_model_views;
    let ghost all = node_views(nodes@);
    let ghost start = *nodes;
    let ghost p = position@;
    let len: usize = nodes.len();
    let mut i: usize = 0;
    assert(all.skip(0) =~= all);
    proof {
        let v = with_position_under(all, oz@, p);
        if v is Some {
            assert(all.take(0) + v->0 =~= v->0);
        }
    }
    while i < len
        invariant
            i <= len == nodes@.len() == all.len(),
            start == *old(nodes),
            p == position@,
            node_views(nodes@) == all,
            start@.len() == len,
            all == node_views(start@),
            forall|j: int| i <= j < len ==> nodes@[j] == start@[j],
            with_position_under(all, oz@, p) == changed_behind(
                all.take(i as int),
                with_position_under(all.skip(i as int), oz@, p),
            ),
        decreases len - i,
    {
        broadcast use group_model_views;
        let ghost tail = all.skip(i as int);
        let ghost rest = all.skip(i + 1);
        assert(tail[0] == all[i as int]);
        assert(tail.skip(1) =~= rest);
        let mut node = Node::default();
        std::mem::swap(&mut node, &mut nodes[i]);
        assert(node == start@[i as int]);
        let ghost before = node@;
        assert(before == all[i as int]);
        if same(node.oz.as_str(), oz) {
            node.positions.push(position.clone());
            let ghost after = node@;
            nodes.set(i, node);
            assert(node_views(nodes@) =~= all.take(i as int) + (seq![after] + rest));
            return true;
        }
        assert(decreases_to!(start => start@[i as int].children));
        let found = insert_under(&mut node.children, oz, position);
        let ghost after = node@;
        nodes.set(i, node);
        assert(node_views(nodes@) =~= all.update(i as int, after));
        if found {
            assert(node_views(nodes@) =~= all.take(i as int) + (seq![after] + rest));
            return true;
        }
        assert(after == before);
        proof {
            let v = with_position_under(rest, oz@, p);
            if v is Some {
                assert(all.take(i as int) + (seq![before] + v->0) =~= all.take(i + 1) + v->0);
            }
        }
        i = i + 1;
        assert(node_views(nodes@) =~= all);
    }
    false
}

/// The number of the heading above a position: its first three parts.
pub open spec fn heading_number(oz: Seq<char>) -> Seq<char> {
    let p = split(oz, '.');
    join(
        if p.len() > 3 {
            p.take(3)
        } else {
            p
        },
        "."@,
    )
}

/// Adds a position to the heading that its number belongs to; tells whether there is one.
pub fn insert_position(nodes: &mut Vec<Node>, position: &Position) -> (r: bool)
    ensures
        (match with_position_under(
            node_views(old(nodes)@),
            heading_number(position@.oz),
            position@,
        ) {
            Some(after) => r && node_views(final(nodes)@) == after,
            None => !r && node_views(final(nodes)@) == node_views(old(nodes)@),
        }),
{
    let found = parts(position.oz.as_str(), '.');
    assert(found@.len() == texts(found@).len());
    let oz = if found.len() > 3 {
        let front = vstd::slice::slice_subrange(found.as_slice(), 0, 3);
        assert(texts(front@) =~= texts(found@).take(3));
        joined(front, ".")
    } else {
        joined(found.as_slice(), ".")
    };
    insert_under(nodes, oz.as_str(), position)
}

/// The smallest distance from the left edge among the first `n` numbers.
pub open spec fn margin_of(v: Seq<OccurrenceView>, n: nat) -> int
    decreases n,
{
    if n <= 1 {
        v[0].left
    } else {
        let before = margin_of(v, (n - 1) as nat);
        if v[n - 1].left < before {
            v[n - 1].left
        } else {
            before
        }
    }
}

/// Whether a number stands clearly to the right of the margin.
pub open spec fn is_indented(o: OccurrenceView, margin: int) -> bool {
    o.left > margin + 18
}

/// The last of the first `n` numbers that stands at the margin.
pub open spec fn last_real(v: Seq<OccurrenceView>, margin: int, n: nat) -> Option<nat>
    decreases n,
{
    if n == 0 {
        None
    } else if !is_indented(v[n - 1], margin) {
        Some((n - 1) as nat)
    } else {
        last_real(v, margin, (n - 1) as nat)
    }
}

/// The tree with the position that an indented number was read as put back into the text
/// of a real position. Without a sure place for it nothing is lost: it goes under the
/// heading of its number, or stays where it is.
pub open spec fn put_back(
    roots: Seq<NodeView>,
    o: OccurrenceView,
    target: Option<OccurrenceView>,
) -> (Seq<NodeView>, bool) {
    match without_unpriced(roots, o.oz, o.page) {
        None => (roots, false),
        Some((rest, candidate)) => {
            let joined = match target {
                Some(t) => with_reference(rest, t.oz, t.page, candidate),
                None => None,
            };
            match joined {
                Some(after) => (after, true),
                None => match with_position_under(rest, heading_number(candidate.oz), candidate) {
                    Some(after) => (after, false),
                    None => (roots, false),
                },
            }
        },
    }
}

/// The tree after the first `n` numbers, and how many positions were put back.
pub open spec fn put_back_until(roots: Seq<NodeView>, v: Seq<OccurrenceView>, n: nat) -> (
    Seq<NodeView>,
    nat,
)
    decreases n,
{
    if n == 0 {
        (roots, 0)
    } else {
        let (before, count) = put_back_until(roots, v, (n - 1) as nat);
        let margin = margin_of(v, v.len());
        if is_indented(v[n - 1], margin) {
            let target = match last_real(v, margin, (n - 1) as nat) {
                Some(k) => Some(v[k as int]),
                None => None,
            };
            let (after, joined) = put_back(before, v[n - 1], target);
            (
                after,
                if joined {
                    count + 1
                } else {
                    count
                },
            )
        } else {
            (before, count)
        }
    }
}

/// The bill with indented numbers put back into the texts that name them.
pub open spec fn with_indented_repaired(boq: BoqView, layout: Seq<char>) -> (BoqView, nat) {
    let v = occurrences_of(layout);
    let (roots, count) = put_back_until(boq.roots, v, v.len());
    (
        BoqView {
            roots,
            warnings: if count > 0 {
                warnings_kept(boq.warnings, positions_of(roots))
            } else {
                boq.warnings
            },
            ..boq
        },
        count,
    )
}

fn left_margin(v: &Vec<OzOccurrence>) -> (r: i32)
    requires
        v@.len() > 0,
    ensures
        r == margin_of(occurrence_views(v@), v@.len()),
{
    let ghost all = occurrence_views(v@);
    let mut r: i32 = v[0].left;
    let mut i: usize = 1;
    assert(all[0] == v@[0]@);
    while i < v.len()
        invariant
            1 <= i <= v@.len(),
            all == occurrence_views(v@),
            r == margin_of(all, i as nat),
        decreases v@.len() - i,
    {
        assert(all[i as int] == v@[i as int]@);
        if v[i].left < r {
            r = v[i].left;
        }
        i = i + 1;
    }
    r
}

fn indented(o: &OzOccurrence, margin: i32) -> (r: bool)
    ensures
        r == is_indented(o@, margin as int),
{
    o.left as i64 > margin as i64 + 18
}

fn real_before(v: &Vec<OzOccurrence>, margin: i32, n: usize) -> (r: Option<usize>)
    requires
        n <= v@.len(),
    ensures
        (match r {
            Some(k) => k < n && last_real(occurrence_views(v@), margin as int, n as nat) == Some(
                k as nat,
            ),
            None => last_real(occurrence_views(v@), margin as int, n as nat) is None,
        }),
{
    let ghost all = occurrence_views(v@);
    let mut i: usize = n;
    while i > 0
        invariant
            i <= n <= v@.len(),
            all == occurrence_views(v@),
            last_real(all, margin as int, n as nat) == last_real(all, margin as int, i as nat),
        decreases i,
    {
        assert(all[i - 1] == v@[i - 1]@);
        if !indented(&v[i - 1], margin) {
            return Some(i - 1);
        }
        i = i - 1;
    }
    None
}

fn copy_nodes(nodes: &Vec<Node>) -> (r: Vec<Node>)
    ensures
        node_views(r@) == node_views(nodes@),
{
    broadcast use group_model_views;
    let ghost all = node_views(nodes@);
    let mut r: Vec<Node> = Vec::new();
    let mut i: usize = 0;
    assert(node_views(r@) =~= all.take(0));
    while i < nodes.len()
        invariant
            i <= nodes@.len(),
            all == node_views(nodes@),
            node_views(r@) == all.take(i as int),
        decreases nodes@.len() - i,
    {
        broadcast use group_model_views;
        r.push(nodes[i].clone());
        assert(all.take(i + 1) =~= all.take(i as int).push(nodes@[i as int]@));
        i = i + 1;
    }
    assert(all.take(nodes@.len() as int) =~= all);
    r
}

fn repair_one(nodes: &mut Vec<Node>, o: &OzOccurrence, target: Option<&OzOccurrence>) -> (r: bool)
    ensures
        (node_views(final(nodes)@), r) == put_back(
            node_views(old(nodes)@),
            o@,
            match target {
                Some(t) => Some(t@),
                None => None,
            },
        ),
{
    let before = copy_nodes(nodes);
    let candidate = match take_unpriced_position(nodes, o.oz.as_str(), o.page) {
        Some(candidate) => candidate,
        None => {
            return false;
        },
    };
    if let Some(t) = target {
        if append_reference(nodes, t.oz.as_str(), t.page, &candidate) {
            return true;
        }
    }
    if !insert_position(nodes, &candidate) {
        *nodes = before;
    }
    false
}

/// Puts positions that were read from an indented number back into the text of the real
/// position above them, given the layout of the pages. Gives how many there were.
pub fn repair_indented_references(layout: &str, boq: &mut BillOfQuantities) -> (r: usize)
    ensures
        (final(boq)@, r as nat) == with_indented_repaired(old(boq)@, layout@),
{
    let occurrences = parse_occurrences(layout);
    let ghost all = occurrence_views(occurrences@);
    let ghost start = boq@;
    assert(occurrences@.len() == all.len());
    if occurrences.len() == 0 {
        assert(boq@ =~= with_indented_repaired(start, layout@).0);
        return 0;
    }
    let margin = left_margin(&occurrences);
    let mut count: usize = 0;
    let mut i: usize = 0;
    while i < occurrences.len()
        invariant
            i <= occurrences@.len() == all.len(),
            all == occurrence_views(occurrences@),
            margin == margin_of(all, all.len()),
            count <= i,
            (node_views(boq.roots@), count as nat) == put_back_until(start.roots, all, i as nat),
            boq@ == (BoqView { roots: node_views(boq.roots@), ..start }),
        decreases occurrences@.len() - i,
    {
        assert(all[i as int] == occurrences@[i as int]@);
        if indented(&occurrences[i], margin) {
            let target = match real_before(&occurrences, margin, i) {
                Some(k) => {
                    assert(all[k as int] == occurrences@[k as int]@);
                    Some(&occurrences[k])
                },
                None => None,
            };
            if repair_one(&mut boq.roots, &occurrences[i], target) {
                count = count + 1;
            }
        }
        i = i + 1;
    }
    if count > 0 {
        refresh_parser_warnings(boq);
    }
    assert(boq@ =~= with_indented_repaired(start, layout@).0);
    count
}

proof fn lemma_positions_front(node: NodeView, rest: Seq<NodeView>)
    ensures
        positions_of(seq![node] + rest).len() == node.positions.len() + positions_of(
            node.children,
        ).len() + positions_of(rest).len(),
{
    lemma_positions_concat(seq![node], rest);
    assert(seq![node].drop_last() =~= Seq::<NodeView>::empty());
    assert(seq![node].last() == node);
    let empty = Seq::<NodeView>::empty();
    assert(positions_of(empty) =~= Seq::<PositionView>::empty());
    assert(positions_of(seq![node]) == positions_of(empty) + node.positions + positions_of(
        node.children,
    ));
}

proof fn lemma_first_unpriced(v: Seq<PositionView>, oz: Seq<char>, page: nat, n: nat)
    ensures
        first_unpriced(v, oz, page, n) is Some ==> first_unpriced(v, oz, page, n)->0 < v.len(),
    decreases v.len() - n,
{
    if n < v.len() && !unpriced_at(v[n as int], oz, page) {
        lemma_first_unpriced(v, oz, page, n + 1);
    }
}

proof fn lemma_first_at(v: Seq<PositionView>, oz: Seq<char>, page: nat, n: nat)
    ensures
        first_at(v, oz, page, n) is Some ==> first_at(v, oz, page, n)->0 < v.len(),
    decreases v.len() - n,
{
    if n < v.len() {
        lemma_first_at(v, oz, page, n + 1);
    }
}

proof fn lemma_taken_count(nodes: Seq<NodeView>, oz: Seq<char>, page: nat)
    ensures
        without_unpriced(nodes, oz, page) matches Some((rest, p)) ==> positions_of(rest).len() + 1
            == positions_of(nodes).len(),
    decreases nodes,
{
    if nodes.len() > 0 {
        let node = nodes[0];
        let rest = nodes.skip(1);
        assert(nodes =~= seq![node] + rest);
        lemma_positions_front(node, rest);
        lemma_first_unpriced(node.positions, oz, page, 0);
        lemma_taken_count(node.children, oz, page);
        lemma_taken_count(rest, oz, page);
        match first_unpriced(node.positions, oz, page, 0) {
            Some(i) => {
                lemma_positions_front(
                    NodeView { positions: node.positions.remove(i as int), ..node },
                    rest,
                );
            },
            None => match without_unpriced(node.children, oz, page) {
                Some((children, p)) => {
                    lemma_positions_front(NodeView { children, ..node }, rest);
                },
                None => match without_unpriced(rest, oz, page) {
                    Some((others, p)) => {
                        lemma_positions_front(node, others);
                    },
                    None => {},
                },
            },
        }
    }
}

proof fn lemma_joined_count(nodes: Seq<NodeView>, oz: Seq<char>, page: nat, c: PositionView)
    ensures
        with_reference(nodes, oz, page, c) matches Some(after) ==> positions_of(after).len()
            == positions_of(nodes).len(),
    decreases nodes,
{
    if nodes.len() > 0 {
        let node = nodes[0];
        let rest = nodes.skip(1);
        assert(nodes =~= seq![node] + rest);
        lemma_positions_front(node, rest);
        lemma_first_at(node.positions, oz, page, 0);
        lemma_joined_count(node.children, oz, page, c);
        lemma_joined_count(rest, oz, page, c);
        match first_at(node.positions, oz, page, 0) {
            Some(i) => {
                lemma_positions_front(
                    NodeView {
                        positions: node.positions.update(
                            i as int,
                            with_continuation(node.positions[i as int], c),
                        ),
                        ..node
                    },
                    rest,
                );
            },
            None => match with_reference(node.children, oz, page, c) {
                Some(children) => {
                    lemma_positions_front(NodeView { children, ..node }, rest);
                },
                None => match with_reference(rest, oz, page, c) {
                    Some(others) => {
                        lemma_positions_front(node, others);
                    },
                    None => {},
                },
            },
        }
    }
}

proof fn lemma_inserted_count(nodes: Seq<NodeView>, oz: Seq<char>, p: PositionView)
    ensures
        with_position_under(nodes, oz, p) matches Some(after) ==> positions_of(after).len()
            == positions_of(nodes).len() + 1,
    decreases nodes,
{
    if nodes.len() > 0 {
        let node = nodes[0];
        let rest = nodes.skip(1);
        assert(nodes =~= seq![node] + rest);
        lemma_positions_front(node, rest);
        lemma_inserted_count(node.children, oz, p);
        lemma_inserted_count(rest, oz, p);
        if node.oz == oz {
            lemma_positions_front(NodeView { positions: node.positions.push(p), ..node }, rest);
        } else {
            match with_position_under(node.children, oz, p) {
                Some(children) => {
                    lemma_positions_front(NodeView { children, ..node }, rest);
                },
                None => match with_position_under(rest, oz, p) {
                    Some(others) => {
                        lemma_positions_front(node, others);
                    },
                    None => {},
                },
            }
        }
    }
}

/// No position is lost: a bill has as many positions fewer as were put back into the text
/// of another.
pub proof fn law_no_position_lost(roots: Seq<NodeView>, v: Seq<OccurrenceView>, n: nat)
    requires
        n <= v.len(),
    ensures
        positions_of(put_back_until(roots, v, n).0).len() + put_back_until(roots, v, n).1
            == positions_of(roots).len(),
    decreases n,
{
    if n > 0 {
        law_no_position_lost(roots, v, (n - 1) as nat);
        let (before, count) = put_back_until(roots, v, (n - 1) as nat);
        let margin = margin_of(v, v.len());
        let o = v[n - 1];
        lemma_taken_count(before, o.oz, o.page);
        if let Some((rest, candidate)) = without_unpriced(before, o.oz, o.page) {
            if let Some(k) = last_real(v, margin, (n - 1) as nat) {
                lemma_joined_count(rest, v[k as int].oz, v[k as int].page, candidate);
            }
            lemma_inserted_count(rest, heading_number(candidate.oz), candidate);
        }
    }
}

} // verus!
