//! The bill of quantities: a tree of headings with priced positions.

use crate::decimal::{dec, Dec, Decimal};
use crate::text::texts;
use vstd::prelude::*;

verus! {

/// One position of a bill.
#[derive(Debug, PartialEq)]
pub struct Position {
    pub oz: String,
    pub quantity: Option<Decimal>,
    pub unit: Option<String>,
    pub unit_price: Option<Decimal>,
    pub total_price: Option<Decimal>,
    pub short_text: String,
    pub long_text: String,
    pub page_from: Option<usize>,
    pub page_to: Option<usize>,
    pub provisional: bool,
    pub price_only: bool,
}

/// One heading of a bill with what stands under it.
#[derive(Debug, PartialEq)]
pub struct Node {
    pub oz: String,
    pub title: String,
    pub level: usize,
    pub page: Option<usize>,
    pub children: Vec<Node>,
    pub positions: Vec<Position>,
}

/// A bill of quantities.
#[derive(Debug, PartialEq)]
pub struct BillOfQuantities {
    pub source: String,
    pub project: String,
    pub client: String,
    pub bidder: String,
    pub currency: String,
    pub preamble: String,
    pub roots: Vec<Node>,
    pub warnings: Vec<String>,
}

/// What a position is.
#[verifier::ext_equal]
pub struct PositionView {
    pub oz: Seq<char>,
    pub quantity: Option<Dec>,
    pub unit: Option<Seq<char>>,
    pub unit_price: Option<Dec>,
    pub total_price: Option<Dec>,
    pub short_text: Seq<char>,
    pub long_text: Seq<char>,
    pub page_from: Option<usize>,
    pub page_to: Option<usize>,
    pub provisional: bool,
    pub price_only: bool,
}

/// What a heading is.
#[verifier::ext_equal]
pub struct NodeView {
    pub oz: Seq<char>,
    pub title: Seq<char>,
    pub level: nat,
    pub page: Option<usize>,
    pub children: Seq<NodeView>,
    pub positions: Seq<PositionView>,
}

/// What a bill of quantities is.
#[verifier::ext_equal]
pub struct BoqView {
    pub source: Seq<char>,
    pub project: Seq<char>,
    pub client: Seq<char>,
    pub bidder: Seq<char>,
    pub currency: Seq<char>,
    pub preamble: Seq<char>,
    pub roots: Seq<NodeView>,
    pub warnings: Seq<Seq<char>>,
}

/// What an optional text is.
pub open spec fn opt_text(v: Option<String>) -> Option<Seq<char>> {
    match v {
        Some(s) => Some(s@),
        None => None,
    }
}

impl View for Position {
    type V = PositionView;

    open spec fn view(&self) -> PositionView {
        PositionView {
            oz: self.oz@,
            quantity: dec(self.quantity),
            unit: opt_text(self.unit),
            unit_price: dec(self.unit_price),
            total_price: dec(self.total_price),
            short_text: self.short_text@,
            long_text: self.long_text@,
            page_from: self.page_from,
            page_to: self.page_to,
            provisional: self.provisional,
            price_only: self.price_only,
        }
    }
}

pub open spec fn position_views(v: Seq<Position>) -> Seq<PositionView> {
    Seq::new(v.len(), |i: int| v[i]@)
}

pub open spec fn node_view(n: Node) -> NodeView
    decreases n,
{
    NodeView {
        oz: n.oz@,
        title: n.title@,
        level: n.level as nat,
        page: n.page,
        children: Seq::new(
            n.children@.len(),
            |i: int|
                if 0 <= i < n.children@.len() {
                    node_view(n.children@[i])
                } else {
                    arbitrary()
                },
        ),
        positions: position_views(n.positions@),
    }
}

impl View for Node {
    type V = NodeView;

    open spec fn view(&self) -> NodeView {
        node_view(*self)
    }
}

pub open spec fn node_views(v: Seq<Node>) -> Seq<NodeView> {
    Seq::new(v.len(), |i: int| v[i]@)
}

pub broadcast proof fn lemma_node_view(n: Node)
    ensures
        (#[trigger] n@).oz == n.oz@,
        n@.title == n.title@,
        n@.level == n.level,
        n@.page == n.page,
        n@.children == node_views(n.children@),
        n@.positions == position_views(n.positions@),
{
    assert(n@.children =~= node_views(n.children@));
}

pub broadcast proof fn lemma_node_views_push(v: Seq<Node>, n: Node)
    ensures
        #[trigger] node_views(v.push(n)) == node_views(v).push(n@),
{
    assert(node_views(v.push(n)) =~= node_views(v).push(n@));
}

pub broadcast proof fn lemma_position_views_push(v: Seq<Position>, p: Position)
    ensures
        #[trigger] position_views(v.push(p)) == position_views(v).push(p@),
{
    assert(position_views(v.push(p)) =~= position_views(v).push(p@));
}

pub broadcast group group_model_views {
    lemma_node_view,
    lemma_node_views_push,
    lemma_position_views_push,
}

impl View for BillOfQuantities {
    type V = BoqView;

    open spec fn view(&self) -> BoqView {
        BoqView {
            source: self.source@,
            project: self.project@,
            client: self.client@,
            bidder: self.bidder@,
            currency: self.currency@,
            preamble: self.preamble@,
            roots: node_views(self.roots@),
            warnings: texts(self.warnings@),
        }
    }
}

/// A position of which nothing is known.
pub open spec fn empty_position() -> PositionView {
    PositionView {
        oz: seq![],
        quantity: None,
        unit: None,
        unit_price: None,
        total_price: None,
        short_text: seq![],
        long_text: seq![],
        page_from: None,
        page_to: None,
        provisional: false,
        price_only: false,
    }
}

/// A heading of which nothing is known.
pub open spec fn empty_node() -> NodeView {
    NodeView {
        oz: seq![],
        title: seq![],
        level: 0,
        page: None,
        children: seq![],
        positions: seq![],
    }
}

impl Default for Position {
    fn default() -> (r: Position)
        ensures
            r@ == empty_position(),
    {
        Position {
            oz: String::new(),
            quantity: None,
            unit: None,
            unit_price: None,
            total_price: None,
            short_text: String::new(),
            long_text: String::new(),
            page_from: None,
            page_to: None,
            provisional: false,
            price_only: false,
        }
    }
}

impl Default for Node {
    fn default() -> (r: Node)
        ensures
            r@ == empty_node(),
    {
        broadcast use group_model_views;
        let r = Node {
            oz: String::new(),
            title: String::new(),
            level: 0,
            page: None,
            children: Vec::new(),
            positions: Vec::new(),
        };
        assert(node_views(r.children@) =~= Seq::<NodeView>::empty());
        assert(position_views(r.positions@) =~= Seq::<PositionView>::empty());
        r
    }
}

/// An empty bill in euro.
pub open spec fn empty_boq(source: Seq<char>) -> BoqView {
    BoqView {
        source,
        project: seq![],
        client: seq![],
        bidder: seq![],
        currency: "EUR"@,
        preamble: seq![],
        roots: seq![],
        warnings: seq![],
    }
}

impl BillOfQuantities {
    pub fn new(source: &str) -> (r: BillOfQuantities)
        ensures
            r@ == empty_boq(source@),
    {
        let r = BillOfQuantities {
            source: source.to_owned(),
            project: String::new(),
            client: String::new(),
            bidder: String::new(),
            currency: "EUR".to_owned(),
            preamble: String::new(),
            roots: Vec::new(),
            warnings: Vec::new(),
        };
        assert(r@ =~= empty_boq(source@));
        r
    }
}

/// An optional text as an owned copy.
pub fn clone_opt(v: &Option<String>) -> (r: Option<String>)
    ensures
        opt_text(r) == opt_text(*v),
{
    match v {
        Some(s) => Some(s.clone()),
        None => None,
    }
}

impl Clone for Position {
    fn clone(&self) -> (r: Position)
        ensures
            r@ == self@,
    {
        Position {
            oz: self.oz.clone(),
            quantity: self.quantity,
            unit: clone_opt(&self.unit),
            unit_price: self.unit_price,
            total_price: self.total_price,
            short_text: self.short_text.clone(),
            long_text: self.long_text.clone(),
            page_from: self.page_from,
            page_to: self.page_to,
            provisional: self.provisional,
            price_only: self.price_only,
        }
    }
}

fn clone_node(n: &Node) -> (r: Node)
    ensures
        r@ == n@,
    decreases n,
{
    broadcast use group_model_views;
    let mut children: Vec<Node> = Vec::new();
    let mut i: usize = 0;
    while i < n.children.len()
        invariant
            i <= n.children@.len(),
            node_views(children@) == node_views(n.children@).take(i as int),
        decreases n.children@.len() - i,
    {
        broadcast use group_model_views;
        let child = clone_node(&n.children[i]);
        children.push(child);
        assert(node_views(n.children@).take(i + 1) =~= node_views(n.children@).take(i as int).push(child@));
        i = i + 1;
    }
    let mut positions: Vec<Position> = Vec::new();
    let mut i: usize = 0;
    while i < n.positions.len()
        invariant
            i <= n.positions@.len(),
            position_views(positions@) == position_views(n.positions@).take(i as int),
        decreases n.positions@.len() - i,
    {
        broadcast use group_model_views;
        positions.push(n.positions[i].clone());
        assert(position_views(n.positions@).take(i + 1) =~= position_views(n.positions@).take(i as int).push(
            n.positions@[i as int]@,
        ));
        i = i + 1;
    }
    let r = Node {
        oz: n.oz.clone(),
        title: n.title.clone(),
        level: n.level,
        page: n.page,
        children,
        positions,
    };
    assert(node_views(r.children@) =~= node_views(n.children@));
    assert(position_views(r.positions@) =~= position_views(n.positions@));
    assert(r@ == n@);
    r
}

impl Clone for Node {
    fn clone(&self) -> (r: Node)
        ensures
            r@ == self@,
    {
        clone_node(self)
    }
}

} // verus!
