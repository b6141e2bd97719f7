//! Walking the tree of a bill.

use crate::model::{
    group_model_views, node_views, position_views, Node, NodeView, Position, PositionView,
};
use crate::text::{lemma_texts_push, texts};
use vstd::prelude::*;

verus! {

/// The positions of a tree: those of a heading before those of the headings under it.
pub open spec fn positions_of(nodes: Seq<NodeView>) -> Seq<PositionView>
    decreases nodes,
{
    if nodes.len() == 0 {
        seq![]
    } else {
        positions_of(nodes.drop_last()) + nodes.last().positions + positions_of(
            nodes.last().children,
        )
    }
}

/// The positions of a tree in the order in which they are written: those of the
/// headings under a heading before its own.
pub open spec fn written_positions(nodes: Seq<NodeView>) -> Seq<PositionView>
    decreases nodes,
{
    if nodes.len() == 0 {
        seq![]
    } else {
        written_positions(nodes.drop_last()) + written_positions(nodes.last().children)
            + nodes.last().positions
    }
}

pub open spec fn ref_views(v: Seq<&Position>) -> Seq<PositionView> {
    Seq::new(v.len(), |i: int| v[i]@)
}

fn append_all<'a>(target: &mut Vec<&'a Position>, positions: &'a Vec<Position>)
    ensures
        ref_views(final(target)@) == ref_views(old(target)@) + position_views(positions@),
{
    let ghost before = ref_views(target@);
    let ghost all = position_views(positions@);
    let mut i: usize = 0;
    assert(before + all.take(0) =~= before);
    while i < positions.len()
        invariant
            i <= positions@.len(),
            all == position_views(positions@),
            ref_views(target@) == before + all.take(i as int),
        decreases positions@.len() - i,
    {
        let ghost here = target@;
        target.push(&positions[i]);
        assert(ref_views(target@) =~= ref_views(here).push(positions@[i as int]@));
        assert(ref_views(target@) =~= before + all.take(i + 1));
        i = i + 1;
    }
    assert(all.take(i as int) =~= all);
}

fn collect<'a>(nodes: &'a Vec<Node>, target: &mut Vec<&'a Position>)
    ensures
        ref_views(final(target)@) == ref_views(old(target)@) + positions_of(node_views(nodes@)),
    decreases nodes,
{
    broadcast use group_model_views;
    let ghost before = ref_views(target@);
    let ghost all = node_views(nodes@);
    let mut i: usize = 0;
    assert(before + positions_of(all.take(0)) =~= before);
    while i < nodes.len()
        invariant
            i <= nodes@.len(),
            all == node_views(nodes@),
            ref_views(target@) == before + positions_of(all.take(i as int)),
        decreases nodes@.len() - i,
    {
        broadcast use group_model_views;
        let ghost node = nodes@[i as int]@;
        assert(all.take(i + 1).drop_last() =~= all.take(i as int));
        assert(all.take(i + 1).last() == node);
        append_all(target, &nodes[i].positions);
        assert(decreases_to!(*nodes => nodes@[i as int].children));
        collect(&nodes[i].children, target);
        assert(ref_views(target@) =~= before + positions_of(all.take(i + 1)));
        i = i + 1;
    }
    assert(all.take(i as int) =~= all);
}

/// The positions of a tree, those of a heading before those under it.
pub fn positions<'a>(nodes: &'a Vec<Node>) -> (r: Vec<&'a Position>)
    ensures
        ref_views(r@) == positions_of(node_views(nodes@)),
{
    let mut r: Vec<&'a Position> = Vec::new();
    collect(nodes, &mut r);
    assert(ref_views(r@) =~= positions_of(node_views(nodes@)));
    r
}

fn collect_written<'a>(nodes: &'a Vec<Node>, target: &mut Vec<&'a Position>)
    ensures
        ref_views(final(target)@) == ref_views(old(target)@) + written_positions(node_views(nodes@)),
    decreases nodes,
{
    broadcast use group_model_views;
    let ghost before = ref_views(target@);
    let ghost all = node_views(nodes@);
    let mut i: usize = 0;
    assert(before + written_positions(all.take(0)) =~= before);
    while i < nodes.len()
        invariant
            i <= nodes@.len(),
            all == node_views(nodes@),
            ref_views(target@) == before + written_positions(all.take(i as int)),
        decreases nodes@.len() - i,
    {
        broadcast use group_model_views;
        let ghost node = nodes@[i as int]@;
        assert(all.take(i + 1).drop_last() =~= all.take(i as int));
        assert(all.take(i + 1).last() == node);
        assert(decreases_to!(*nodes => nodes@[i as int].children));
        collect_written(&nodes[i].children, target);
        append_all(target, &nodes[i].positions);
        assert(ref_views(target@) =~= before + written_positions(all.take(i + 1)));
        i = i + 1;
    }
    assert(all.take(i as int) =~= all);
}

/// The positions of a tree in the order in which they are written.
pub fn positions_as_written<'a>(nodes: &'a Vec<Node>) -> (r: Vec<&'a Position>)
    ensures
        ref_views(r@) == written_positions(node_views(nodes@)),
{
    let mut r: Vec<&'a Position> = Vec::new();
    collect_written(nodes, &mut r);
    assert(ref_views(r@) =~= written_positions(node_views(nodes@)));
    r
}

/// The titles of the headings of a tree, each in front of those below it.
pub open spec fn titles_of(nodes: Seq<NodeView>) -> Seq<Seq<char>>
    decreases nodes,
{
    if nodes.len() == 0 {
        seq![]
    } else {
        titles_of(nodes.drop_last()).push(nodes.last().title) + titles_of(nodes.last().children)
    }
}

fn collect_titles(nodes: &Vec<Node>, target: &mut Vec<String>)
    ensures
        texts(final(target)@) == texts(old(target)@) + titles_of(node_views(nodes@)),
    decreases *nodes,
{
    broadcast use {group_model_views, lemma_texts_push};
    let ghost start = texts(target@);
    let ghost all = node_views(nodes@);
    let mut i: usize = 0;
    assert(start + titles_of(all.take(0)) =~= start);
    while i < nodes.len()
        invariant
            i <= nodes@.len(),
            all == node_views(nodes@),
            texts(target@) == start + titles_of(all.take(i as int)),
        decreases nodes@.len() - i,
    {
        broadcast use {group_model_views, lemma_texts_push};
        assert(all.take(i + 1).drop_last() =~= all.take(i as int));
        assert(all.take(i + 1).last() == nodes@[i as int]@);
        target.push(nodes[i].title.clone());
        assert(decreases_to!(*nodes => nodes@[i as int].children));
        collect_titles(&nodes[i].children, target);
        assert(texts(target@) =~= start + titles_of(all.take(i + 1)));
        i = i + 1;
    }
    assert(all.take(nodes@.len() as int) =~= all);
}

/// The titles of the headings of a tree.
pub fn heading_titles(nodes: &Vec<Node>) -> (r: Vec<String>)
    ensures
        texts(r@) == titles_of(node_views(nodes@)),
{
    let mut r: Vec<String> = Vec::new();
    collect_titles(nodes, &mut r);
    assert(texts(r@) =~= titles_of(node_views(nodes@)));
    r
}

/// The positions of trees side by side.
pub proof fn lemma_positions_concat(a: Seq<NodeView>, b: Seq<NodeView>)
    ensures
        positions_of(a + b) == positions_of(a) + positions_of(b),
    decreases b.len(),
{
    if b.len() == 0 {
        assert(a + b =~= a);
        assert(positions_of(a) + positions_of(b) =~= positions_of(a));
    } else {
        lemma_positions_concat(a, b.drop_last());
        assert((a + b).drop_last() =~= a + b.drop_last());
        assert((a + b).last() == b.last());
        assert(positions_of(a + b) =~= positions_of(a) + positions_of(b));
    }
}

} // verus!
