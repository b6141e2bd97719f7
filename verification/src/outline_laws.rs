//! What holds of the bill that an exchange file becomes.

use crate::bill_laws::{law_items_become_positions, positions_in};
use crate::document::{DocumentView, ItemView, RowView};
use crate::model::{empty_node, NodeView, PositionView};
use crate::outline::{
    boq_of, changed, heading_index, lemma_heading_index, lemma_split_len, on_one_line, outline,
    placed, position_of_item, with_heading, ChangeView,
};
use crate::parser_laws::law_split_undoes_join;
use crate::text::{join, lemma_position_of_found, position_of, split, trim};
use crate::tree::positions_of;
use vstd::prelude::*;

verus! {

proof fn lemma_item_counted(rows: Seq<RowView>, n: nat, i: int)
    requires
        0 <= i < n <= rows.len(),
        rows[i] is Item,
        split(rows[i]->Item_0.oz, '.').len() >= 2,
    ensures
        positions_in(rows, n).count(position_of_item(rows[i]->Item_0)) > 0,
    decreases n,
{
    if i < n - 1 {
        lemma_item_counted(rows, (n - 1) as nat, i);
    }
}

proof fn lemma_counted_item(rows: Seq<RowView>, n: nat, p: PositionView) -> (i: int)
    requires
        n <= rows.len(),
        positions_in(rows, n).count(p) > 0,
    ensures
        0 <= i < n,
        rows[i] is Item,
        split(rows[i]->Item_0.oz, '.').len() >= 2,
        p == position_of_item(rows[i]->Item_0),
    decreases n,
{
    let last = rows[n - 1];
    if last is Item && split(last->Item_0.oz, '.').len() >= 2 && p == position_of_item(
        last->Item_0,
    ) {
        n - 1
    } else {
        lemma_counted_item(rows, (n - 1) as nat, p)
    }
}

/// The items among rows that have a heading to stand under.
pub open spec fn housed_items(rows: Seq<RowView>) -> Seq<ItemView>
    decreases rows.len(),
{
    if rows.len() == 0 {
        seq![]
    } else {
        match rows.last() {
            RowView::Item(item) => if split(item.oz, '.').len() >= 2 {
                housed_items(rows.drop_last()).push(item)
            } else {
                housed_items(rows.drop_last())
            },
            RowView::Category { .. } => housed_items(rows.drop_last()),
        }
    }
}

proof fn lemma_housed_len(rows: Seq<RowView>, n: nat)
    requires
        n <= rows.len(),
    ensures
        positions_in(rows, n).len() == housed_items(rows.take(n as int)).len(),
    decreases n,
{
    if n > 0 {
        assert(rows.take(n as int).drop_last() =~= rows.take(n - 1));
        lemma_housed_len(rows, (n - 1) as nat);
    }
}

/// Whether a text is another one with a blank in the place of each line end.
pub open spec fn lines_run_together(one: Seq<char>, s: Seq<char>) -> bool {
    &&& one.len() == s.len()
    &&& forall|k: int|
        0 <= k < s.len() ==> #[trigger] one[k] == (if s[k] == '\n' {
            ' '
        } else {
            s[k]
        })
}

proof fn lemma_on_one_line(s: Seq<char>)
    ensures
        lines_run_together(on_one_line(s), s),
    decreases s.len(),
{
    reveal_strlit("\n");
    reveal_strlit(" ");
    assert("\n"@ =~= seq!['\n']);
    assert(" "@ =~= seq![' ']);
    let one = on_one_line(s);
    if s.len() > 0 {
        lemma_on_one_line(s.skip(1));
        assert("\n"@.is_prefix_of(s) <==> s[0] == '\n') by {
            if s[0] == '\n' {
                assert(s.subrange(0, 1) =~= "\n"@);
            }
            if "\n"@.is_prefix_of(s) {
                assert(s.subrange(0, 1)[0] == "\n"@[0]);
            }
        }
        let rest = on_one_line(s.skip(1));
        assert forall|k: int| 0 <= k < s.len() implies #[trigger] one[k] == (if s[k] == '\n' {
            ' '
        } else {
            s[k]
        }) by {
            if k > 0 {
                assert(rest[k - 1] == one[k]);
                assert(s.skip(1)[k - 1] == s[k]);
            }
        }
    }
}

/// A bill has for each item of the exchange file whose number has two parts or more a
/// position with the number, quantity, prices and long text of the item, its unit where
/// one is stated, and its short text on one line. Each position comes from such an item,
/// and there are as many positions as such items.
pub proof fn law_item_fields_kept(document: DocumentView)
    ensures
        ({
            let found = positions_of(boq_of(document).roots);
            &&& found.len() == housed_items(document.rows).len()
            &&& forall|i: int| #![trigger document.rows[i]]
                0 <= i < document.rows.len() && document.rows[i] is Item && split(
                    document.rows[i]->Item_0.oz,
                    '.',
                ).len() >= 2 ==> exists|j: int| #![trigger found[j]]
                    0 <= j < found.len() && {
                        let item = document.rows[i]->Item_0;
                        &&& found[j].oz == item.oz
                        &&& found[j].quantity == item.quantity
                        &&& found[j].unit_price == item.unit_price
                        &&& found[j].total_price == item.total_price
                        &&& found[j].long_text == item.long_text
                        &&& lines_run_together(found[j].short_text, item.short_text)
                        &&& (item.unit.len() == 0 ==> found[j].unit is None)
                        &&& (item.unit.len() > 0 ==> found[j].unit == Some(item.unit))
                        &&& !found[j].provisional && !found[j].price_only
                    }
            &&& forall|j: int| #![trigger found[j]]
                0 <= j < found.len() ==> exists|i: int| #![trigger document.rows[i]]
                    0 <= i < document.rows.len() && document.rows[i] is Item && {
                        let item = document.rows[i]->Item_0;
                        &&& split(item.oz, '.').len() >= 2
                        &&& found[j].oz == item.oz
                        &&& found[j].quantity == item.quantity
                        &&& found[j].unit_price == item.unit_price
                        &&& found[j].total_price == item.total_price
                        &&& found[j].long_text == item.long_text
                    }
        }),
        boq_of(document).source == document.source,
        boq_of(document).project == document.project,
        boq_of(document).currency == document.currency,
{
    broadcast use vstd::seq_lib::group_to_multiset_ensures;

    let rows = document.rows;
    let n = rows.len();
    let found = positions_of(boq_of(document).roots);
    law_items_become_positions(rows, n);
    lemma_housed_len(rows, n);
    assert(rows.take(n as int) =~= rows);
    assert(found.len() == found.to_multiset().len());
    assert forall|i: int| #![trigger document.rows[i]]
        0 <= i < rows.len() && rows[i] is Item && split(rows[i]->Item_0.oz, '.').len() >= 2 implies exists|
        j: int,
    | #![trigger found[j]]
        0 <= j < found.len() && {
            let item = rows[i]->Item_0;
            &&& found[j].oz == item.oz
            &&& found[j].quantity == item.quantity
            &&& found[j].unit_price == item.unit_price
            &&& found[j].total_price == item.total_price
            &&& found[j].long_text == item.long_text
            &&& lines_run_together(found[j].short_text, item.short_text)
            &&& (item.unit.len() == 0 ==> found[j].unit is None)
            &&& (item.unit.len() > 0 ==> found[j].unit == Some(item.unit))
            &&& !found[j].provisional && !found[j].price_only
        } by {
        let item = rows[i]->Item_0;
        lemma_item_counted(rows, n, i);
        lemma_on_one_line(item.short_text);
        assert(found.contains(position_of_item(item)));
        let j = choose|j: int| 0 <= j < found.len() && found[j] == position_of_item(item);
        assert(found[j] == position_of_item(item));
    }
    assert forall|j: int| #![trigger found[j]] 0 <= j < found.len() implies exists|i: int|
        #![trigger document.rows[i]]
        0 <= i < rows.len() && rows[i] is Item && {
            let item = rows[i]->Item_0;
            &&& split(item.oz, '.').len() >= 2
            &&& found[j].oz == item.oz
            &&& found[j].quantity == item.quantity
            &&& found[j].unit_price == item.unit_price
            &&& found[j].total_price == item.total_price
            &&& found[j].long_text == item.long_text
        } by {
        assert(found.contains(found[j]));
        let i = lemma_counted_item(rows, n, found[j]);
        assert(rows[i] is Item);
    }
}

/// Whether the headings of a tree stand where their numbers say: each has the number of
/// the heading above it and one part more, its level is the number of its parts, no two
/// under one heading have the same number, and each position has the number of its heading
/// and one part more.
pub open spec fn well_placed(nodes: Seq<NodeView>, above: Seq<Seq<char>>) -> bool
    decreases nodes,
{
    &&& forall|i: int, j: int|
        0 <= i < j < nodes.len() ==> (#[trigger] nodes[i]).oz != (#[trigger] nodes[j]).oz
    &&& forall|i: int| 0 <= i < nodes.len() ==> placed_heading(#[trigger] nodes[i], above)
    &&& forall|i: int| #![trigger nodes[i]]
        0 <= i < nodes.len() ==> well_placed(nodes[i].children, split(nodes[i].oz, '.'))
}

/// Whether a heading and its own positions have the numbers that its place calls for.
pub open spec fn placed_heading(node: NodeView, above: Seq<Seq<char>>) -> bool {
    &&& split(node.oz, '.').len() == above.len() + 1
    &&& split(node.oz, '.').drop_last() == above
    &&& node.level == above.len() + 1
    &&& forall|k: int|
        0 <= k < node.positions.len() ==> split((#[trigger] node.positions[k]).oz, '.').len()
            == above.len() + 2 && split(node.positions[k].oz, '.').drop_last() == split(
            node.oz,
            '.',
        )
}

pub proof fn lemma_no_dots(s: Seq<char>)
    ensures
        forall|i: int| 0 <= i < split(s, '.').len() ==> !(#[trigger] split(s, '.')[i]).contains('.'),
    decreases s.len(),
{
    lemma_position_of_found(s, '.');
    let n = position_of(s, '.') as int;
    let parts = split(s, '.');
    if n < s.len() {
        lemma_no_dots(s.skip(n + 1));
        let rest = split(s.skip(n + 1), '.');
        assert forall|i: int| 0 <= i < parts.len() implies !(#[trigger] parts[i]).contains('.') by {
            if i == 0 {
                assert(parts[0] =~= s.take(n));
                assert forall|k: int| 0 <= k < n implies s.take(n)[k] != '.' by {
                    assert(s.take(n)[k] == s[k]);
                }
            } else {
                assert(parts[i] == rest[i - 1]);
            }
        }
    } else {
        assert(parts =~= seq![s]);
    }
}

pub proof fn lemma_path_number(path: Seq<Seq<char>>, n: int)
    requires
        0 < n <= path.len(),
        forall|i: int| 0 <= i < path.len() ==> !(#[trigger] path[i]).contains('.'),
    ensures
        split(join(path.take(n), "."@), '.') == path.take(n),
{
    assert forall|i: int| 0 <= i < n implies !(#[trigger] path.take(n)[i]).contains('.') by {
        assert(path.take(n)[i] == path[i]);
    }
    law_split_undoes_join(path.take(n));
}

/// One more heading behind the others where none has its number.
pub proof fn lemma_heading_put_in(nodes: Seq<NodeView>, above: Seq<Seq<char>>, node: NodeView)
    requires
        well_placed(nodes, above),
        heading_index(nodes, node.oz) == nodes.len(),
        placed_heading(node, above),
        node.children.len() == 0,
    ensures
        well_placed(nodes.push(node), above),
{
    let all = nodes.push(node);
    lemma_index_found(nodes, node.oz);
    assert(well_placed(node.children, split(node.oz, '.')));
    assert forall|i: int, j: int| 0 <= i < j < all.len() implies (#[trigger] all[i]).oz != (
    #[trigger] all[j]).oz by {
        assert(all[i] == nodes[i]);
        if j < nodes.len() {
            assert(all[j] == nodes[j]);
        }
    }
    assert forall|i: int| 0 <= i < all.len() implies placed_heading(#[trigger] all[i], above) by {
        if i < nodes.len() {
            assert(all[i] == nodes[i]);
        }
    }
    assert forall|i: int| #![trigger all[i]] 0 <= i < all.len() implies well_placed(
        all[i].children,
        split(all[i].oz, '.'),
    ) by {
        if i < nodes.len() {
            assert(all[i] == nodes[i]);
        }
    }
}

pub proof fn lemma_index_found(nodes: Seq<NodeView>, oz: Seq<char>)
    ensures
        heading_index(nodes, oz) <= nodes.len(),
        heading_index(nodes, oz) < nodes.len() ==> nodes[heading_index(nodes, oz) as int].oz == oz,
        forall|i: int| 0 <= i < heading_index(nodes, oz) ==> (#[trigger] nodes[i]).oz != oz,
    decreases nodes.len(),
{
    if nodes.len() > 0 && nodes[0].oz != oz {
        lemma_index_found(nodes.skip(1), oz);
        let n = heading_index(nodes, oz) as int;
        assert forall|i: int| 0 <= i < n implies (#[trigger] nodes[i]).oz != oz by {
            if i > 0 {
                assert(nodes.skip(1)[i - 1] == nodes[i]);
            }
        }
    }
}

/// A heading changed in its place.
pub proof fn lemma_heading_changed(
    nodes: Seq<NodeView>,
    above: Seq<Seq<char>>,
    at: int,
    node: NodeView,
)
    requires
        well_placed(nodes, above),
        0 <= at < nodes.len(),
        node.oz == nodes[at].oz,
        placed_heading(node, above),
        well_placed(node.children, split(node.oz, '.')),
    ensures
        well_placed(nodes.update(at, node), above),
{
    let all = nodes.update(at, node);
    assert forall|i: int, j: int| 0 <= i < j < all.len() implies (#[trigger] all[i]).oz != (
    #[trigger] all[j]).oz by {
        assert(all[i].oz == nodes[i].oz);
        assert(all[j].oz == nodes[j].oz);
    }
    assert forall|i: int| 0 <= i < all.len() implies placed_heading(#[trigger] all[i], above) by {
        if i != at {
            assert(all[i] == nodes[i]);
        }
    }
    assert forall|i: int| #![trigger all[i]] 0 <= i < all.len() implies well_placed(
        all[i].children,
        split(all[i].oz, '.'),
    ) by {
        if i != at {
            assert(all[i] == nodes[i]);
        }
    }
}

pub proof fn lemma_position_added(node: NodeView, above: Seq<Seq<char>>, p: PositionView)
    requires
        placed_heading(node, above),
        split(p.oz, '.').len() == above.len() + 2,
        split(p.oz, '.').drop_last() == split(node.oz, '.'),
    ensures
        placed_heading(NodeView { positions: node.positions.push(p), ..node }, above),
{
    let all = node.positions.push(p);
    assert forall|k: int| 0 <= k < all.len() implies split((#[trigger] all[k]).oz, '.').len()
        == above.len() + 2 && split(all[k].oz, '.').drop_last() == split(node.oz, '.') by {
        if k < node.positions.len() {
            assert(all[k] == node.positions[k]);
        }
    }
}

proof fn lemma_placed_well(
    nodes: Seq<NodeView>,
    path: Seq<Seq<char>>,
    index: nat,
    change: ChangeView,
)
    requires
        index < path.len(),
        forall|i: int| 0 <= i < path.len() ==> !(#[trigger] path[i]).contains('.'),
        well_placed(nodes, path.take(index as int)),
        change is Add ==> split(change->Add_0.oz, '.').len() == path.len() + 1 && split(
            change->Add_0.oz,
            '.',
        ).drop_last() == path,
    ensures
        well_placed(placed(nodes, path, index, change), path.take(index as int)),
    decreases path.len() - index,
{
    let n = index as int + 1;
    let above = path.take(index as int);
    let here = path.take(n);
    let oz = join(here, "."@);
    lemma_path_number(path, n);
    assert(here.drop_last() =~= above);
    lemma_index_found(nodes, oz);
    let at = heading_index(nodes, oz) as int;
    let all = with_heading(nodes, oz, index + 1);
    if at >= nodes.len() {
        let node = NodeView { oz, level: index + 1, ..empty_node() };
        assert(placed_heading(node, above));
        lemma_heading_put_in(nodes, above, node);
    }
    let node = all[at];
    assert(node.oz == oz);
    assert(placed_heading(node, above));
    assert(well_placed(node.children, split(node.oz, '.')));
    if n >= path.len() {
        assert(here =~= path);
        if let ChangeView::Add(p) = change {
            lemma_position_added(node, above, p);
        }
        assert(placed_heading(changed(node, change), above));
        lemma_heading_changed(all, above, at, changed(node, change));
    } else {
        lemma_placed_well(node.children, path, index + 1, change);
        let children = placed(node.children, path, index + 1, change);
        lemma_heading_changed(all, above, at, NodeView { children, ..node });
    }
}

/// In the bill of an exchange file every heading and every position stands where its number
/// says.
pub proof fn law_bill_well_placed(document: DocumentView)
    ensures
        well_placed(boq_of(document).roots, seq![]),
{
    lemma_outline_placed(document.rows, document.rows.len());
}

proof fn lemma_outline_placed(rows: Seq<RowView>, n: nat)
    requires
        n <= rows.len(),
    ensures
        well_placed(outline(rows, n), seq![]),
    decreases n,
{
    if n > 0 {
        lemma_outline_placed(rows, (n - 1) as nat);
        let nodes = outline(rows, (n - 1) as nat);
        match rows[n - 1] {
            RowView::Category { oz, title, level: _ } => {
                let path = split(oz, '.');
                lemma_split_len(oz, '.');
                lemma_no_dots(oz);
                let change = if trim(title).len() == 0 {
                    ChangeView::Present
                } else {
                    ChangeView::Title(on_one_line(title))
                };
                assert(path.take(0) =~= seq![]);
                lemma_placed_well(nodes, path, 0, change);
            },
            RowView::Item(item) => {
                let parts = split(item.oz, '.');
                if parts.len() >= 2 {
                    let path = parts.drop_last();
                    lemma_no_dots(item.oz);
                    assert forall|i: int| 0 <= i < path.len() implies !(
                    #[trigger] path[i]).contains('.') by {
                        assert(path[i] == parts[i]);
                    }
                    assert(path.take(0) =~= seq![]);
                    lemma_placed_well(nodes, path, 0, ChangeView::Add(position_of_item(item)));
                }
            },
        }
    }
}

/// The title of the heading with this number, nothing where there is none.
pub open spec fn title_of(nodes: Seq<NodeView>, path: Seq<Seq<char>>, index: nat) -> Option<
    Seq<char>,
>
    decreases path.len() - index,
{
    let at = heading_index(nodes, join(path.take(index as int + 1), "."@)) as int;
    if index >= path.len() || at >= nodes.len() {
        None
    } else if index + 1 == path.len() {
        Some(nodes[at].title)
    } else {
        title_of(nodes[at].children, path, index + 1)
    }
}

proof fn lemma_join_apart(a: Seq<Seq<char>>, b: Seq<Seq<char>>)
    requires
        a.len() > 0,
        b.len() > 0,
        a != b,
        forall|i: int| 0 <= i < a.len() ==> !(#[trigger] a[i]).contains('.'),
        forall|i: int| 0 <= i < b.len() ==> !(#[trigger] b[i]).contains('.'),
    ensures
        join(a, "."@) != join(b, "."@),
{
    law_split_undoes_join(a);
    law_split_undoes_join(b);
}

/// What a change does to titles: a title that is set is there, and every other heading
/// keeps its own.
proof fn lemma_placed_title(
    nodes: Seq<NodeView>,
    path: Seq<Seq<char>>,
    index: nat,
    change: ChangeView,
    other: Seq<Seq<char>>,
)
    requires
        index < path.len(),
        index < other.len(),
        path.take(index as int) == other.take(index as int),
        forall|i: int| 0 <= i < path.len() ==> !(#[trigger] path[i]).contains('.'),
        forall|i: int| 0 <= i < other.len() ==> !(#[trigger] other[i]).contains('.'),
    ensures
        ({
            let after = title_of(placed(nodes, path, index, change), other, index);
            let before = title_of(nodes, other, index);
            &&& other == path && change is Title ==> after == Some(change->Title_0)
            &&& other != path || !(change is Title) ==> (before is Some ==> after == before)
        }),
    decreases path.len() - index,
{
    let n = index as int + 1;
    let oz = join(path.take(n), "."@);
    let oz2 = join(other.take(n), "."@);
    let at = heading_index(nodes, oz) as int;
    let all = with_heading(nodes, oz, index + 1);
    lemma_index_found(nodes, oz);
    lemma_index_found(nodes, oz2);
    let after = placed(nodes, path, index, change);
    assert(all[at].oz == oz);
    assert forall|i: int| 0 <= i < nodes.len() implies (#[trigger] after[i]).oz == nodes[i].oz by {}
    if path[index as int] == other[index as int] {
        assert(path.take(n) =~= path.take(index as int).push(path[index as int]));
        assert(other.take(n) =~= other.take(index as int).push(other[index as int]));
        assert(path.take(n) == other.take(n));
        assert forall|i: int| 0 <= i < at implies (#[trigger] after[i]).oz != oz by {
            assert(nodes[i].oz != oz);
        }
        assert(after[at].oz == oz);
        lemma_heading_index(after, oz, at);
        if n < path.len() && n < other.len() {
            lemma_placed_title(all[at].children, path, index + 1, change, other);
            if at >= nodes.len() {
                assert(all[at].children =~= Seq::<NodeView>::empty());
            }
        } else if n == path.len() && n == other.len() {
            assert(path.take(n) =~= path);
            assert(other.take(n) =~= other);
        } else if n == path.len() {
            assert(changed(all[at], change).children == all[at].children);
        }
    } else {
        assert(path.take(n)[index as int] != other.take(n)[index as int]);
        assert forall|i: int| 0 <= i < path.take(n).len() implies !(
        #[trigger] path.take(n)[i]).contains('.') by {
            assert(path.take(n)[i] == path[i]);
        }
        assert forall|i: int| 0 <= i < other.take(n).len() implies !(
        #[trigger] other.take(n)[i]).contains('.') by {
            assert(other.take(n)[i] == other[i]);
        }
        lemma_join_apart(path.take(n), other.take(n));
        let at2 = heading_index(nodes, oz2) as int;
        if at2 < nodes.len() {
            assert forall|i: int| 0 <= i < at2 implies (#[trigger] after[i]).oz != oz2 by {
                assert(nodes[i].oz != oz2);
            }
            assert(nodes[at2].oz == oz2);
            assert(at2 != at);
            assert(after[at2] == nodes[at2]);
            lemma_heading_index(after, oz2, at2);
        }
    }
}

proof fn lemma_titles(rows: Seq<RowView>, n: nat, i: int)
    requires
        0 <= i < n <= rows.len(),
        rows[i] is Category,
        trim(rows[i]->Category_title).len() > 0,
        forall|m: int|
            i < m < n && (#[trigger] rows[m]) is Category && rows[m]->Category_oz
                == rows[i]->Category_oz ==> trim(rows[m]->Category_title).len() == 0,
    ensures
        title_of(outline(rows, n), split(rows[i]->Category_oz, '.'), 0) == Some(
            on_one_line(rows[i]->Category_title),
        ),
    decreases n,
{
    let number = rows[i]->Category_oz;
    let target = split(number, '.');
    lemma_split_len(number, '.');
    lemma_no_dots(number);
    let nodes = outline(rows, (n - 1) as nat);
    if n - 1 > i {
        lemma_titles(rows, (n - 1) as nat, i);
    }
    match rows[n - 1] {
        RowView::Category { oz, title, level: _ } => {
            let path = split(oz, '.');
            lemma_split_len(oz, '.');
            lemma_no_dots(oz);
            let change = if trim(title).len() == 0 {
                ChangeView::Present
            } else {
                ChangeView::Title(on_one_line(title))
            };
            assert(path.take(0) =~= target.take(0));
            lemma_placed_title(nodes, path, 0, change, target);
            if n - 1 > i && path == target {
                crate::gaeb90_laws::law_join_undoes_split(oz, '.');
                crate::gaeb90_laws::law_join_undoes_split(number, '.');
                assert(oz == number);
            }
        },
        RowView::Item(item) => {
            let parts = split(item.oz, '.');
            if parts.len() >= 2 {
                let path = parts.drop_last();
                lemma_no_dots(item.oz);
                assert forall|k: int| 0 <= k < path.len() implies !(#[trigger] path[k]).contains(
                    '.',
                ) by {
                    assert(path[k] == parts[k]);
                }
                assert(path.take(0) =~= target.take(0));
                lemma_placed_title(
                    nodes,
                    path,
                    0,
                    ChangeView::Add(position_of_item(item)),
                    target,
                );
            }
        },
    }
}

/// A heading of the bill has the title that the file states last for its number, with its
/// lines run together.
pub proof fn law_titles_kept(document: DocumentView, i: int)
    requires
        0 <= i < document.rows.len(),
        document.rows[i] is Category,
        trim(document.rows[i]->Category_title).len() > 0,
        forall|m: int|
            i < m < document.rows.len() && (#[trigger] document.rows[m]) is Category
                && document.rows[m]->Category_oz == document.rows[i]->Category_oz ==> trim(
                document.rows[m]->Category_title,
            ).len() == 0,
    ensures
        ({
            let row = document.rows[i];
            let title = title_of(boq_of(document).roots, split(row->Category_oz, '.'), 0);
            title is Some && lines_run_together(title->0, row->Category_title)
        }),
{
    lemma_titles(document.rows, document.rows.len(), i);
    lemma_on_one_line(document.rows[i]->Category_title);
}

} // verus!
