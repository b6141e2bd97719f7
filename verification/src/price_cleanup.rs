//! Prices held against quantities, with repairs of what is plainly misread.

use crate::decimal::{dec, divided, magnitude, multiplied, pow10, subtracted, Dec, Decimal};
use crate::document::{failure, Error};
use crate::model::{
    group_model_views, node_views, position_views, BillOfQuantities, BoqView, Node, NodeView,
    Position, PositionView,
};
use crate::parser::overflow_message;
use crate::price_laws::{lemma_division_goes_through, lemma_repair_goes_through, looked_at};
use crate::text::{lemma_texts_push, starts_with, texts};
use crate::x83::{is_omitted_position, omitted};
use vstd::prelude::*;

verus! {

/// An amount rounded to cents.
pub open spec fn to_cents(d: Dec) -> Dec {
    d.round_dp(2)
}

pub fn money(value: Decimal) -> (r: Decimal)
    ensures
        r@ == to_cents(value@),
{
    value.round_dp(2)
}

/// Whether two amounts differ by two cents at most; nothing where the arithmetic
/// overflows.
pub open spec fn agree(a: Dec, b: Dec) -> Option<bool> {
    match subtracted(a, b) {
        Some(d) => Some(d.abs().at_most(Dec { mantissa: 2, scale: 2 })),
        None => None,
    }
}

pub fn close(left: Decimal, right: Decimal) -> (r: Option<bool>)
    ensures
        r == agree(left@, right@),
{
    match left.checked_sub(right) {
        Some(d) => Some(d.abs().at_most(Decimal::new(2, 2))),
        None => None,
    }
}

/// An amount as it is written in a warning.
pub open spec fn amount(d: Dec) -> Seq<char> {
    d.round_dp(2).normalize().plain()
}

pub fn decimal_text(value: Decimal) -> (r: String)
    ensures
        r@ == amount(value@),
{
    value.round_dp(2).normalize().plain()
}

/// Quantity times unit price in cents; nothing where it overflows.
pub open spec fn price_of(quantity: Dec, unit_price: Dec) -> Option<Dec> {
    match multiplied(quantity, unit_price) {
        Some(product) => Some(to_cents(product)),
        None => None,
    }
}

pub fn total_of(quantity: Decimal, unit_price: Decimal) -> (r: Option<Decimal>)
    ensures
        dec(r) == price_of(quantity@, unit_price@),
{
    match quantity.checked_mul(unit_price) {
        Some(product) => Some(money(product)),
        None => None,
    }
}

/// A repaired position with the warnings about it.
#[verifier::ext_equal]
pub struct Repair {
    pub position: PositionView,
    pub warnings: Seq<Seq<char>>,
}

/// A position of which both prices are given: a total that agrees with quantity and unit
/// price is put in cents, exchanged prices are exchanged back, and otherwise the unit
/// price decides.
pub open spec fn with_both_prices(p: PositionView, quantity: Dec, unit: Dec, total: Dec) -> Option<
    Repair,
> {
    match price_of(quantity, unit) {
        None => None,
        Some(expected) => match agree(expected, total) {
            None => None,
            Some(true) => Some(
                Repair {
                    position: PositionView { total_price: Some(expected), ..p },
                    warnings: seq![],
                },
            ),
            Some(false) => match exchanged(quantity, unit, total) {
                None => None,
                Some(true) => Some(
                    Repair {
                        position: PositionView {
                            unit_price: Some(total),
                            total_price: Some(to_cents(unit)),
                            ..p
                        },
                        warnings: seq![
                            "Preis korrigiert: "@ + p.oz
                                + " – EP und GP waren wahrscheinlich vertauscht"@,
                        ],
                    },
                ),
                Some(false) => Some(
                    Repair {
                        position: PositionView { total_price: Some(expected), ..p },
                        warnings: seq![
                            "Preis korrigiert: "@ + p.oz + " – GP "@ + amount(total)
                                + " wurde aus Menge × EP als "@ + amount(expected)
                                + " neu berechnet"@,
                        ],
                    },
                ),
            },
        },
    }
}

/// Whether unit price and total fit the quantity when they change places.
pub open spec fn exchanged(quantity: Dec, unit: Dec, total: Dec) -> Option<bool> {
    match price_of(quantity, total) {
        None => None,
        Some(swapped) => agree(swapped, unit),
    }
}

/// A position repaired; nothing where the arithmetic overflows. One that is left out, of
/// which only the unit price is asked, or without a quantity stays as it is.
pub open spec fn repair(p: PositionView) -> Option<Repair> {
    let same = Repair { position: p, warnings: seq![] };
    if omitted(p) || p.price_only || p.quantity is None || p.quantity->0.mantissa == 0 {
        Some(same)
    } else {
        let quantity = p.quantity->0;
        match (p.unit_price, p.total_price) {
            (Some(unit), Some(total)) => with_both_prices(p, quantity, unit, total),
            (Some(unit), None) => match price_of(quantity, unit) {
                None => None,
                Some(total) => Some(
                    Repair {
                        position: PositionView { total_price: Some(total), ..p },
                        warnings: seq!["GP berechnet: "@ + p.oz + " – "@ + amount(total)],
                    },
                ),
            },
            (None, Some(total)) => match divided(total, quantity) {
                None => None,
                Some(quotient) => match price_of(quantity, to_cents(quotient)) {
                    None => None,
                    Some(product) => Some(
                        Repair {
                            position: PositionView {
                                unit_price: Some(to_cents(quotient)),
                                total_price: Some(product),
                                ..p
                            },
                            warnings: seq![
                                "EP berechnet: "@ + p.oz + " – "@ + amount(to_cents(quotient)),
                            ],
                        },
                    ),
                },
            },
            (None, None) => Some(same),
        }
    }
}

/// Whether a number is one that a bill states in earnest: at most eleven digits, and at
/// most six of them behind the decimal point.
pub open spec fn modest(d: Dec) -> bool {
    magnitude(d.mantissa) < 100_000_000_000 && d.scale <= 6
}

/// Whether quantity and prices of a position, as far as it has them, are such numbers.
pub open spec fn modest_prices(p: PositionView) -> bool {
    &&& p.quantity is Some ==> modest(p.quantity->0)
    &&& p.unit_price is Some ==> modest(p.unit_price->0)
    &&& p.total_price is Some ==> modest(p.total_price->0)
}

/// Whether quantities and prices of positions are such numbers.
pub open spec fn modest_all(v: Seq<PositionView>) -> bool {
    forall|i: int| 0 <= i < v.len() ==> modest_prices(#[trigger] v[i])
}

/// Whether quantities and prices of all positions of a tree are such numbers.
pub open spec fn modest_tree(nodes: Seq<NodeView>) -> bool
    decreases nodes,
{
    nodes.len() > 0 ==> {
        &&& modest_tree(nodes.drop_last())
        &&& modest_all(nodes.last().positions)
        &&& modest_tree(nodes.last().children)
    }
}

proof fn lemma_modest_part(nodes: Seq<NodeView>, i: int)
    requires
        modest_tree(nodes),
        0 <= i < nodes.len(),
    ensures
        modest_all(nodes[i].positions),
        modest_tree(nodes[i].children),
    decreases nodes.len(),
{
    if i < nodes.len() - 1 {
        assert(nodes.drop_last()[i] == nodes[i]);
        lemma_modest_part(nodes.drop_last(), i);
    }
}

fn repair_both(
    position: &mut Position,
    quantity: Decimal,
    unit_price: Decimal,
    total_price: Decimal,
    warnings: &mut Vec<String>,
) -> (r: bool)
    ensures
        r == (with_both_prices(
            old(position)@,
            quantity@,
            unit_price@,
            total_price@,
        ) is Some),
        r ==> with_both_prices(old(position)@, quantity@, unit_price@, total_price@) == Some(
            Repair {
                position: final(position)@,
                warnings: texts(final(warnings)@).skip(old(warnings)@.len() as int),
            },
        ),
        r ==> texts(old(warnings)@).is_prefix_of(texts(final(warnings)@)),
        !r ==> final(position)@ == old(position)@ && final(warnings)@ == old(warnings)@,
{
    broadcast use lemma_texts_push;
    let ghost before = texts(warnings@);
    let expected = match total_of(quantity, unit_price) {
        Some(expected) => expected,
        None => {
            return false;
        },
    };
    let agrees = match close(expected, total_price) {
        Some(agrees) => agrees,
        None => {
            return false;
        },
    };
    if agrees {
        position.total_price = Some(expected);
        assert(before.skip(before.len() as int) =~= seq![]);
        return true;
    }
    let swapped_total = match total_of(quantity, total_price) {
        Some(swapped) => swapped,
        None => {
            return false;
        },
    };
    let swapped = match close(swapped_total, unit_price) {
        Some(swapped) => swapped,
        None => {
            return false;
        },
    };
    let text = if swapped {
        position.unit_price = Some(total_price);
        position.total_price = Some(money(unit_price));
        "Preis korrigiert: ".to_owned().concat(position.oz.as_str()).concat(
            " – EP und GP waren wahrscheinlich vertauscht",
        )
    } else {
        position.total_price = Some(expected);
        "Preis korrigiert: ".to_owned().concat(position.oz.as_str()).concat(" – GP ").concat(
            decimal_text(total_price).as_str(),
        ).concat(" wurde aus Menge × EP als ").concat(decimal_text(expected).as_str()).concat(
            " neu berechnet",
        )
    };
    let ghost added = text@;
    warnings.push(text);
    assert(texts(warnings@) == before.push(added));
    assert(before.push(added).skip(before.len() as int) =~= seq![added]);
    true
}

/// Repairs one position; tells whether the arithmetic went through. It does where
/// quantity and prices are of ordinary size.
pub fn repair_position(position: &mut Position, warnings: &mut Vec<String>) -> (r: bool)
    ensures
        modest_prices(old(position)@) ==> r,
        r == (repair(old(position)@) is Some),
        r ==> repair(old(position)@) == Some(
            Repair {
                position: final(position)@,
                warnings: texts(final(warnings)@).skip(old(warnings)@.len() as int),
            },
        ),
        r ==> texts(old(warnings)@).is_prefix_of(texts(final(warnings)@)),
        !r ==> final(position)@ == old(position)@ && final(warnings)@ == old(warnings)@,
{
    broadcast use lemma_texts_push;
    let ghost before = texts(warnings@);
    let ghost given = position@;
    proof {
        if modest_prices(given) && !(looked_at(given) && given.unit_price is None
            && given.total_price is Some) {
            lemma_repair_goes_through(given);
        }
    }
    assert(before.skip(before.len() as int) =~= seq![]);
    if is_omitted_position(position) || position.price_only {
        return true;
    }
    let quantity = match position.quantity {
        Some(quantity) => quantity,
        None => {
            return true;
        },
    };
    if quantity.is_zero() {
        return true;
    }
    match (position.unit_price, position.total_price) {
        (Some(unit_price), Some(total_price)) => repair_both(
            position,
            quantity,
            unit_price,
            total_price,
            warnings,
        ),
        (Some(unit_price), None) => {
            let total = match total_of(quantity, unit_price) {
                Some(total) => total,
                None => {
                    return false;
                },
            };
            position.total_price = Some(total);
            let text = "GP berechnet: ".to_owned().concat(position.oz.as_str()).concat(
                " – ",
            ).concat(decimal_text(total).as_str());
            let ghost added = text@;
            warnings.push(text);
            assert(texts(warnings@) == before.push(added));
            assert(before.push(added).skip(before.len() as int) =~= seq![added]);
            true
        },
        (None, Some(total_price)) => {
            proof {
                if modest_prices(given) {
                    lemma_division_goes_through(given);
                }
            }
            let quotient = match total_price.checked_div(quantity) {
                Some(quotient) => money(quotient),
                None => {
                    return false;
                },
            };
            let total = match total_of(quantity, quotient) {
                Some(total) => total,
                None => {
                    return false;
                },
            };
            position.unit_price = Some(quotient);
            position.total_price = Some(total);
            let text = "EP berechnet: ".to_owned().concat(position.oz.as_str()).concat(
                " – ",
            ).concat(decimal_text(quotient).as_str());
            let ghost added = text@;
            warnings.push(text);
            assert(texts(warnings@) == before.push(added));
            assert(before.push(added).skip(before.len() as int) =~= seq![added]);
            true
        },
        (None, None) => true,
    }
}

/// The first `n` positions repaired, with the warnings about them.
pub open spec fn repaired_positions(v: Seq<PositionView>, n: nat) -> Option<
    (Seq<PositionView>, Seq<Seq<char>>),
>
    decreases n,
{
    if n == 0 {
        Some((seq![], seq![]))
    } else {
        match (repaired_positions(v, (n - 1) as nat), repair(v[n - 1])) {
            (Some((done, warnings)), Some(next)) => Some(
                (done.push(next.position), warnings + next.warnings),
            ),
            _ => None,
        }
    }
}

/// The tree with its prices repaired, and the warnings: for each heading those about its
/// own positions, and then those about what stands below it.
pub open spec fn repaired_tree(nodes: Seq<NodeView>) -> Option<(Seq<NodeView>, Seq<Seq<char>>)>
    decreases nodes,
{
    if nodes.len() == 0 {
        Some((seq![], seq![]))
    } else {
        let node = nodes.last();
        match (
            repaired_tree(nodes.drop_last()),
            repaired_positions(node.positions, node.positions.len()),
            repaired_tree(node.children),
        ) {
            (Some((before, first)), Some((positions, own)), Some((children, below))) => Some(
                (before.push(NodeView { positions, children, ..node }), first + own + below),
            ),
            _ => None,
        }
    }
}

proof fn lemma_positions_failed(v: Seq<PositionView>, n: nat, m: nat)
    requires
        n <= m,
        repaired_positions(v, n) is None,
    ensures
        repaired_positions(v, m) is None,
    decreases m,
{
    if n < m {
        lemma_positions_failed(v, n, (m - 1) as nat);
    }
}

#[verifier::rlimit(60)]
#[verifier::spinoff_prover]
fn repair_positions(v: &Vec<Position>, warnings: &mut Vec<String>) -> (r: Option<Vec<Position>>)
    ensures
        modest_all(position_views(v@)) ==> r is Some,
        (match r {
            Some(done) => repaired_positions(position_views(v@), v@.len()) == Some(
                (
                    position_views(done@),
                    texts(final(warnings)@).skip(old(warnings)@.len() as int),
                ),
            ) && texts(old(warnings)@).is_prefix_of(texts(final(warnings)@)),
            None => repaired_positions(position_views(v@), v@.len()) is None,
        }),
{
    broadcast use group_model_views;
    let ghost all = position_views(v@);
    let ghost start = texts(warnings@);
    let mut done: Vec<Position> = Vec::new();
    let mut i: usize = 0;
    assert(start.skip(start.len() as int) =~= seq![]);
    assert(position_views(done@) =~= seq![]);
    while i < v.len()
        invariant
            i <= v@.len(),
            all == position_views(v@),
            start == texts(old(warnings)@),
            start.is_prefix_of(texts(warnings@)),
            repaired_positions(all, i as nat) == Some(
                (position_views(done@), texts(warnings@).skip(start.len() as int)),
            ),
        decreases v@.len() - i,
    {
        broadcast use group_model_views;
        assert(all[i as int] == v@[i as int]@);
        let ghost before = texts(warnings@);
        let mut position = v[i].clone();
        if !repair_position(&mut position, warnings) {
            proof {
                lemma_positions_failed(all, (i + 1) as nat, all.len());
            }
            return None;
        }
        proof {
            let after = texts(warnings@);
            assert(after.skip(start.len() as int) =~= before.skip(start.len() as int) + after.skip(
                before.len() as int,
            )) by {
                assert(before =~= after.take(before.len() as int));
            }
        }
        done.push(position);
        i = i + 1;
    }
    Some(done)
}

proof fn lemma_tree_failed(nodes: Seq<NodeView>, n: int, m: int)
    requires
        0 <= n <= m <= nodes.len(),
        repaired_tree(nodes.take(n)) is None,
    ensures
        repaired_tree(nodes.take(m)) is None,
    decreases m,
{
    if n < m {
        lemma_tree_failed(nodes, n, m - 1);
        assert(nodes.take(m).drop_last() =~= nodes.take(m - 1));
    }
}

proof fn lemma_skipped(start: Seq<Seq<char>>, middle: Seq<Seq<char>>, end: Seq<Seq<char>>)
    requires
        start.is_prefix_of(middle),
        middle.is_prefix_of(end),
    ensures
        start.is_prefix_of(end),
        end.skip(start.len() as int) == middle.skip(start.len() as int) + end.skip(
            middle.len() as int,
        ),
{
    assert(middle =~= end.take(middle.len() as int));
    assert(start =~= middle.take(start.len() as int));
    assert(end.skip(start.len() as int) =~= middle.skip(start.len() as int) + end.skip(
        middle.len() as int,
    ));
}

fn repair_nodes(nodes: &Vec<Node>, warnings: &mut Vec<String>) -> (r: Option<Vec<Node>>)
    ensures
        modest_tree(node_views(nodes@)) ==> r is Some,
        (match r {
            Some(done) => repaired_tree(node_views(nodes@)) == Some(
                (node_views(done@), texts(final(warnings)@).skip(old(warnings)@.len() as int)),
            ) && texts(old(warnings)@).is_prefix_of(texts(final(warnings)@)),
            None => repaired_tree(node_views(nodes@)) is None,
        }),
    decreases *nodes,
{
    broadcast use group_model_views;
    let ghost all = node_views(nodes@);
    let ghost start = texts(warnings@);
    let mut done: Vec<Node> = Vec::new();
    let mut i: usize = 0;
    assert(start.skip(start.len() as int) =~= seq![]);
    assert(node_views(done@) =~= seq![]);
    assert(all.take(0) =~= seq![]);
    while i < nodes.len()
        invariant
            i <= nodes@.len(),
            all == node_views(nodes@),
            start == texts(old(warnings)@),
            start.is_prefix_of(texts(warnings@)),
            repaired_tree(all.take(i as int)) == Some(
                (node_views(done@), texts(warnings@).skip(start.len() as int)),
            ),
        decreases nodes@.len() - i,
    {
        broadcast use group_model_views;
        assert(all[i as int] == nodes@[i as int]@);
        assert(all.take(i + 1).drop_last() =~= all.take(i as int));
        assert(all.take(i + 1).last() == nodes@[i as int]@);
        let ghost w0 = texts(warnings@);
        proof {
            if modest_tree(all) {
                lemma_modest_part(all, i as int);
            }
        }
        let positions = match repair_positions(&nodes[i].positions, warnings) {
            Some(positions) => positions,
            None => {
                proof {
                    lemma_tree_failed(all, i + 1, all.len() as int);
                    assert(all.take(all.len() as int) =~= all);
                }
                return None;
            },
        };
        let ghost w1 = texts(warnings@);
        assert(decreases_to!(*nodes => nodes@[i as int].children));
        let children = match repair_nodes(&nodes[i].children, warnings) {
            Some(children) => children,
            None => {
                proof {
                    lemma_tree_failed(all, i + 1, all.len() as int);
                    assert(all.take(all.len() as int) =~= all);
                }
                return None;
            },
        };
        let ghost w2 = texts(warnings@);
        proof {
            lemma_skipped(start, w0, w1);
            lemma_skipped(start, w1, w2);
        }
        let node = Node {
            oz: nodes[i].oz.clone(),
            title: nodes[i].title.clone(),
            level: nodes[i].level,
            page: nodes[i].page,
            children,
            positions,
        };
        assert(node@ == (NodeView {
            positions: position_views(positions@),
            children: node_views(children@),
            ..all[i as int]
        }));
        done.push(node);
        i = i + 1;
    }
    assert(all.take(nodes@.len() as int) =~= all);
    Some(done)
}

/// Whether a warning is one that an earlier check of the prices left.
pub open spec fn price_warning(w: Seq<char>) -> bool {
    ||| "Preisabweichung "@.is_prefix_of(w)
    ||| "Preis korrigiert: "@.is_prefix_of(w)
    ||| "EP berechnet: "@.is_prefix_of(w)
    ||| "GP berechnet: "@.is_prefix_of(w)
}

/// The warnings that say nothing of prices.
pub open spec fn other_warnings(w: Seq<Seq<char>>) -> Seq<Seq<char>>
    decreases w.len(),
{
    if w.len() == 0 {
        seq![]
    } else if price_warning(w.last()) {
        other_warnings(w.drop_last())
    } else {
        other_warnings(w.drop_last()).push(w.last())
    }
}

fn keep_other(warnings: &Vec<String>) -> (r: Vec<String>)
    ensures
        texts(r@) == other_warnings(texts(warnings@)),
{
    broadcast use lemma_texts_push;
    let ghost w = texts(warnings@);
    let mut r: Vec<String> = Vec::new();
    let mut i: usize = 0;
    while i < warnings.len()
        invariant
            i <= warnings@.len(),
            w == texts(warnings@),
            texts(r@) == other_warnings(w.take(i as int)),
        decreases warnings@.len() - i,
    {
        broadcast use lemma_texts_push;
        assert(w.take(i + 1).drop_last() =~= w.take(i as int));
        assert(w.take(i + 1).last() == warnings@[i as int]@);
        let text = warnings[i].as_str();
        if !starts_with(text, "Preisabweichung ") && !starts_with(text, "Preis korrigiert: ")
            && !starts_with(text, "EP berechnet: ") && !starts_with(text, "GP berechnet: ") {
            r.push(warnings[i].clone());
        }
        i = i + 1;
    }
    assert(w.take(warnings@.len() as int) =~= w);
    r
}

/// The bill with its prices checked and repaired; nothing where the arithmetic overflows.
pub open spec fn with_repaired_prices(boq: BoqView) -> Option<BoqView> {
    match repaired_tree(boq.roots) {
        None => None,
        Some((roots, warnings)) => Some(
            BoqView { roots, warnings: other_warnings(boq.warnings) + warnings, ..boq },
        ),
    }
}

/// Holds quantity times unit price against the total of each position and repairs what is
/// plainly misread. A bill on which the arithmetic overflows stays as it is; where
/// quantities and prices are of ordinary size it does not.
pub fn validate_and_repair_prices(boq: &mut BillOfQuantities) -> (r: Result<(), Error>)
    ensures
        modest_tree(old(boq)@.roots) ==> r is Ok,
        (match with_repaired_prices(old(boq)@) {
            Some(repaired) => r is Ok && final(boq)@ == repaired,
            None => r is Err && r->Err_0@ == overflow_message() && final(boq)@ == old(boq)@,
        }),
{
    let mut warnings = keep_other(&boq.warnings);
    let ghost kept = texts(warnings@);
    match repair_nodes(&boq.roots, &mut warnings) {
        Some(roots) => {
            proof {
                let w = texts(warnings@);
                assert(kept =~= w.take(kept.len() as int));
                assert(kept + w.skip(kept.len() as int) =~= w);
            }
            boq.roots = roots;
            boq.warnings = warnings;
            Ok(())
        },
        None => Err(failure("Preisberechnung überschreitet den Zahlenbereich")),
    }
}

/// A repaired position stays as it is when it is repaired again, and nothing is said of
/// it, unless its prices had changed places.
pub proof fn law_repair_settles(p: PositionView)
    requires
        repair(p) is Some,
        p.quantity is Some && p.unit_price is Some && p.total_price is Some ==> exchanged(
            p.quantity->0,
            p.unit_price->0,
            p.total_price->0,
        ) != Some(true),
    ensures
        repair(repair(p)->0.position) == Some(
            Repair { position: repair(p)->0.position, warnings: seq![] },
        ),
{
    let r = repair(p)->0.position;
    if !(omitted(p) || p.price_only || p.quantity is None || p.quantity->0.mantissa == 0) {
        if r.unit_price is Some && r.total_price is Some {
            let total = r.total_price->0;
            assert(price_of(r.quantity->0, r.unit_price->0) == Some(total));
            assert(total.scale <= 2);
            lemma_agrees_with_itself(total);
        }
    }
}

proof fn lemma_agrees_with_itself(a: Dec)
    requires
        a.scale <= 28,
    ensures
        agree(a, a) == Some(true),
{
    let zero = Dec { mantissa: 0, scale: a.scale };
    crate::decimal::lemma_pow10_positive(a.scale);
    assert(pow10(0) == 1);
    assert(a.mantissa * 1 + (-a.mantissa) * 1 == 0);
    assert(subtracted(a, a) == Some(zero));
    assert(zero.abs().mantissa == 0);
    assert(0 * pow10(2) == 0);
    assert(0 <= 2 * pow10(a.scale));
}

} // verus!
