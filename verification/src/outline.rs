//! Turning the rows of an exchange file into the tree of a bill.

use crate::document::{row_views, DocumentView, GaebDocument, GaebRow, ItemView, RowView};
use crate::model::{
    empty_boq, empty_node, empty_position, group_model_views, node_views, BillOfQuantities, BoqView,
    Node, NodeView, Position, PositionView,
};
use crate::text::{join, joined, parts, replace, replaced, same, split, texts, trim, trimmed};
use vstd::prelude::*;

verus! {

/// What is done to one heading of the tree.
pub enum ChangeView {
    /// Nothing: the heading only has to be there.
    Present,
    Title(Seq<char>),
    Add(PositionView),
}

enum Change {
    Present,
    Title(String),
    Add(Position),
}

impl Change {
    spec fn state(self) -> ChangeView {
        match self {
            Change::Present => ChangeView::Present,
            Change::Title(title) => ChangeView::Title(title@),
            Change::Add(position) => ChangeView::Add(position@),
        }
    }
}

pub open spec fn changed(node: NodeView, change: ChangeView) -> NodeView {
    match change {
        ChangeView::Present => node,
        ChangeView::Title(title) => NodeView { title, ..node },
        ChangeView::Add(position) => NodeView { positions: node.positions.push(position), ..node },
    }
}

/// The index of the first heading with this ordinal number, or the number of headings.
pub open spec fn heading_index(nodes: Seq<NodeView>, oz: Seq<char>) -> nat
    decreases nodes.len(),
{
    if nodes.len() == 0 || nodes[0].oz == oz {
        0
    } else {
        1 + heading_index(nodes.skip(1), oz)
    }
}

pub proof fn lemma_heading_index(nodes: Seq<NodeView>, oz: Seq<char>, n: int)
    requires
        0 <= n <= nodes.len(),
        forall|i: int| 0 <= i < n ==> (#[trigger] nodes[i]).oz != oz,
        n < nodes.len() ==> nodes[n].oz == oz,
    ensures
        heading_index(nodes, oz) == n,
    decreases nodes.len(),
{
    if nodes.len() > 0 && nodes[0].oz != oz {
        assert forall|i: int| 0 <= i < n - 1 implies (#[trigger] nodes.skip(1)[i]).oz != oz by {
            assert(nodes.skip(1)[i] == nodes[i + 1]);
        }
        if n < nodes.len() {
            assert(nodes.skip(1)[n - 1] == nodes[n]);
        }
        lemma_heading_index(nodes.skip(1), oz, n - 1);
    }
}

/// The headings with a new one behind them where none has this ordinal number yet.
pub open spec fn with_heading(nodes: Seq<NodeView>, oz: Seq<char>, level: nat) -> Seq<NodeView> {
    if heading_index(nodes, oz) < nodes.len() {
        nodes
    } else {
        nodes.push(NodeView { oz, level, ..empty_node() })
    }
}

/// The tree with a change made to the heading that the parts of an ordinal number
/// lead to; headings that are missing on the way are put in.
pub open spec fn placed(
    nodes: Seq<NodeView>,
    path: Seq<Seq<char>>,
    index: nat,
    change: ChangeView,
) -> Seq<NodeView>
    decreases path.len() - index,
{
    let oz = join(path.take(index as int + 1), "."@);
    let at = heading_index(nodes, oz) as int;
    let all = with_heading(nodes, oz, index + 1);
    if index + 1 >= path.len() {
        all.update(at, changed(all[at], change))
    } else {
        all.update(
            at,
            NodeView { children: placed(all[at].children, path, index + 1, change), ..all[at] },
        )
    }
}

fn place(nodes: &mut Vec<Node>, path: &Vec<String>, index: usize, change: Change)
    requires
        index < path@.len(),
    ensures
        node_views(final(nodes)@) == placed(
            node_views(old(nodes)@),
            texts(path@),
            index as nat,
            change.state(),
        ),
    decreases path@.len() - index,
{
    broadcast use group_model_views;
    let ghost before = node_views(nodes@);
    let len: usize = path.len();
    let head = vstd::slice::slice_subrange(path.as_slice(), 0, index + 1);
    let oz = joined(head, ".");
    assert(texts(head@) =~= texts(path@).take(index + 1));
    let mut at: usize = 0;
    while at < nodes.len() && !same(nodes[at].oz.as_str(), oz.as_str())
        invariant
            at <= nodes@.len(),
            forall|i: int| 0 <= i < at ==> (#[trigger] node_views(nodes@)[i]).oz != oz@,
        decreases nodes@.len() - at,
    {
        broadcast use group_model_views;
        assert(node_views(nodes@)[at as int].oz == nodes@[at as int].oz@);
        at = at + 1;
    }
    proof {
        if at < nodes@.len() {
            assert(node_views(nodes@)[at as int].oz == nodes@[at as int].oz@);
        }
        lemma_heading_index(node_views(nodes@), oz@, at as int);
    }
    if at == nodes.len() {
        let mut node = Node::default();
        node.oz = oz;
        node.level = index + 1;
        nodes.push(node);
        assert(node@ =~= NodeView { oz: oz@, level: (index + 1) as nat, ..empty_node() });
    }
    let ghost all = node_views(nodes@);
    assert(all == with_heading(before, oz@, (index + 1) as nat));
    let mut node = Node::default();
    std::mem::swap(&mut node, &mut nodes[at]);
    assert(node@ == all[at as int]);
    if index + 1 == path.len() {
        match change {
            Change::Present => {},
            Change::Title(title) => {
                node.title = title;
            },
            Change::Add(position) => {
                node.positions.push(position);
            },
        }
        assert(node@ == changed(all[at as int], change.state()));
    } else {
        place(&mut node.children, path, index + 1, change);
        assert(node@ =~= NodeView {
            children: placed(all[at as int].children, texts(path@), (index + 1) as nat, change.state()),
            ..all[at as int]
        });
    }
    let ghost node_state = node@;
    nodes.set(at, node);
    assert(node_views(nodes@) =~= all.update(at as int, node_state));
}

/// A text with its lines run together.
pub open spec fn on_one_line(s: Seq<char>) -> Seq<char> {
    replace(s, "\n"@, " "@)
}

/// The position that an item becomes.
pub open spec fn position_of_item(item: ItemView) -> PositionView {
    PositionView {
        oz: item.oz,
        quantity: item.quantity,
        unit: if item.unit.len() == 0 {
            None
        } else {
            Some(item.unit)
        },
        unit_price: item.unit_price,
        total_price: item.total_price,
        short_text: on_one_line(item.short_text),
        long_text: item.long_text,
        ..empty_position()
    }
}

/// The tree after one more row. An item whose ordinal number has a single part has
/// no heading to stand under and is left out.
pub open spec fn with_row(nodes: Seq<NodeView>, row: RowView) -> Seq<NodeView> {
    match row {
        RowView::Category { oz, title, level: _ } => placed(
            nodes,
            split(oz, '.'),
            0,
            if trim(title).len() == 0 {
                ChangeView::Present
            } else {
                ChangeView::Title(on_one_line(title))
            },
        ),
        RowView::Item(item) => {
            let path = split(item.oz, '.');
            if path.len() < 2 {
                nodes
            } else {
                placed(nodes, path.drop_last(), 0, ChangeView::Add(position_of_item(item)))
            }
        },
    }
}

/// The tree of the first `n` rows.
pub open spec fn outline(rows: Seq<RowView>, n: nat) -> Seq<NodeView>
    decreases n,
{
    if n == 0 {
        seq![]
    } else {
        with_row(outline(rows, (n - 1) as nat), rows[n - 1])
    }
}

/// The bill that a document becomes.
pub open spec fn boq_of(document: DocumentView) -> BoqView {
    BoqView {
        project: document.project,
        currency: document.currency,
        roots: outline(document.rows, document.rows.len()),
        ..empty_boq(document.source)
    }
}

fn run_together(s: &str) -> (r: String)
    ensures
        r@ == on_one_line(s@),
{
    proof {
        reveal_strlit("\n");
    }
    replaced(s, "\n", " ")
}

pub proof fn lemma_split_len(s: Seq<char>, c: char)
    ensures
        split(s, c).len() > 0,
    decreases s.len(),
{
}

/// The bill that a document becomes.
pub fn gaeb_document_to_boq(document: &GaebDocument) -> (r: BillOfQuantities)
    ensures
        r@ == boq_of(document@),
{
    let mut boq = BillOfQuantities::new(document.source.as_str());
    boq.project = document.project.clone();
    boq.currency = document.currency.clone();
    let ghost rows = document@.rows;
    let mut i: usize = 0;
    while i < document.rows.len()
        invariant
            i <= document.rows@.len(),
            rows == row_views(document.rows@),
            boq@ == (BoqView {
                project: document.project@,
                currency: document.currency@,
                roots: outline(rows, i as nat),
                ..empty_boq(document.source@)
            }),
        decreases document.rows@.len() - i,
    {
        let ghost before = boq@.roots;
        assert(rows[i as int] == document.rows@[i as int]@);
        match &document.rows[i] {
            GaebRow::Category { oz, title, level: _ } => {
                let path = parts(oz.as_str(), '.');
                proof {
                    lemma_split_len(oz@, '.');
                    assert(path@.len() == texts(path@).len());
                }
                let change = if trimmed(title.as_str()).as_str().is_empty() {
                    Change::Present
                } else {
                    Change::Title(run_together(title.as_str()))
                };
                place(&mut boq.roots, &path, 0, change);
            },
            GaebRow::Item(item) => {
                let mut path = parts(item.oz.as_str(), '.');
                assert(path@.len() == texts(path@).len());
                if path.len() >= 2 {
                    let ghost all = texts(path@);
                    path.pop();
                    assert(texts(path@) =~= all.drop_last());
                    let mut position = Position::default();
                    position.oz = item.oz.clone();
                    position.quantity = item.quantity;
                    position.unit = if item.unit.as_str().is_empty() {
                        None
                    } else {
                        Some(item.unit.clone())
                    };
                    position.unit_price = item.unit_price;
                    position.total_price = item.total_price;
                    position.short_text = run_together(item.short_text.as_str());
                    position.long_text = item.long_text.clone();
                    assert(position@ == position_of_item(item@));
                    place(&mut boq.roots, &path, 0, Change::Add(position));
                }
            },
        }
        assert(node_views(boq.roots@) == with_row(before, rows[i as int]));
        i = i + 1;
    }
    boq
}

} // verus!
