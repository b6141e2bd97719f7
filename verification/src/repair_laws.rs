//! What the repairs of a bill leave as it was read.

use vstd::prelude::*;

use crate::bill_laws::law_filed_once;
use crate::decimal::{subtracted, Dec};
use crate::model::{BoqView, NodeView, PositionView};
use crate::order::{law_ranking, lemma_place_for, place_for, ranking};
use crate::outline::lemma_split_len;
use crate::parser::{bill_of_text, HeadingView};
use crate::pdf_cleanup::{
    bold_short_texts, own_positions, with_short_texts, without_references, ShortTextView,
};
use crate::pdf_reader::{bill_of_document, repaired_bill, with_recognition_note};
use crate::placeholder_oz::{
    heading_path, node_keys, position_keys, recovery_of, sorted_tree, supplemented, tidied,
    with_placeholders,
};
use crate::price_cleanup::{repaired_positions, repaired_tree as priced_tree, to_cents};
use crate::provisional_validation::{
    best_choice, candidates_of, checked_subtitle, checked_tree, facts_of, held_against,
    lemma_picks_within, matching, regular_sum, restored, singles, stated_for, two_to, within,
    CandidateView, FactView, StatedView,
};
use crate::reference_cleanup::{repaired, repaired_tree, with_candidate, with_references_joined};
use crate::title_cleanup::with_clean_titles;
use crate::tree::{lemma_positions_concat, positions_of};

verus! {

/// What is asked for in a position: how much of what unit, under which number.
#[verifier::ext_equal]
pub struct Demand {
    pub oz: Seq<char>,
    pub quantity: Dec,
    pub unit: Option<Seq<char>>,
}

/// What is asked for in positions, in their order; those without a quantity are passed
/// over.
pub open spec fn demands(v: Seq<PositionView>) -> Seq<Demand>
    decreases v.len(),
{
    if v.len() == 0 {
        seq![]
    } else {
        let before = demands(v.drop_last());
        match v.last().quantity {
            Some(quantity) => before.push(Demand { oz: v.last().oz, quantity, unit: v.last().unit }),
            None => before,
        }
    }
}

proof fn lemma_demands_concat(a: Seq<PositionView>, b: Seq<PositionView>)
    ensures
        demands(a + b) == demands(a) + demands(b),
    decreases b.len(),
{
    if b.len() == 0 {
        assert(a + b =~= a);
        assert(demands(a) + demands(b) =~= demands(a));
    } else {
        lemma_demands_concat(a, b.drop_last());
        assert((a + b).drop_last() =~= a + b.drop_last());
        assert((a + b).last() == b.last());
        assert(demands(a + b) =~= demands(a) + demands(b));
    }
}

/// Positions of which each asks for the same.
spec fn alike(a: Seq<PositionView>, b: Seq<PositionView>) -> bool {
    &&& a.len() == b.len()
    &&& forall|i: int|
        0 <= i < a.len() ==> (#[trigger] a[i]).oz == b[i].oz && a[i].quantity == b[i].quantity
            && a[i].unit == b[i].unit
}

proof fn lemma_alike(a: Seq<PositionView>, b: Seq<PositionView>)
    requires
        alike(a, b),
    ensures
        demands(a) == demands(b),
    decreases a.len(),
{
    if a.len() > 0 {
        let x = a.drop_last();
        let y = b.drop_last();
        assert forall|i: int| 0 <= i < x.len() implies (#[trigger] x[i]).oz == y[i].oz
            && x[i].quantity == y[i].quantity && x[i].unit == y[i].unit by {
            assert(x[i] == a[i]);
        }
        lemma_alike(x, y);
        assert(a[a.len() - 1].oz == b[b.len() - 1].oz);
    }
}

proof fn lemma_tree_demands(nodes: Seq<NodeView>)
    requires
        nodes.len() > 0,
    ensures
        demands(positions_of(nodes)) == demands(positions_of(nodes.drop_last())) + demands(
            nodes.last().positions,
        ) + demands(positions_of(nodes.last().children)),
{
    lemma_demands_concat(
        positions_of(nodes.drop_last()) + nodes.last().positions,
        positions_of(nodes.last().children),
    );
    lemma_demands_concat(positions_of(nodes.drop_last()), nodes.last().positions);
}

proof fn lemma_joined_demands(v: Seq<PositionView>, n: nat)
    requires
        n <= v.len(),
    ensures
        demands(repaired(v, n)) == demands(v.take(n as int)),
    decreases n,
{
    if n > 0 {
        lemma_joined_demands(v, (n - 1) as nat);
        let before = repaired(v, (n - 1) as nat);
        let c = v[n - 1];
        assert(v.take(n as int).drop_last() =~= v.take(n - 1));
        assert(v.take(n as int).last() == c);
        let after = with_candidate(before, c);
        if after == before.push(c) {
            assert(after.drop_last() =~= before);
        } else if after != before {
            assert(after.drop_last() =~= before.drop_last());
        }
    } else {
        assert(v.take(0) =~= Seq::<PositionView>::empty());
    }
}

/// Putting split texts back and removing sum lines changes nothing of what is asked for.
pub proof fn law_joined_texts_keep_demands(nodes: Seq<NodeView>)
    ensures
        demands(positions_of(repaired_tree(nodes))) == demands(positions_of(nodes)),
    decreases nodes,
{
    if nodes.len() > 0 {
        let node = nodes.last();
        law_joined_texts_keep_demands(nodes.drop_last());
        law_joined_texts_keep_demands(node.children);
        lemma_joined_demands(node.positions, node.positions.len());
        assert(node.positions.take(node.positions.len() as int) =~= node.positions);
        let after = repaired_tree(nodes);
        assert(after.drop_last() =~= repaired_tree(nodes.drop_last()));
        lemma_tree_demands(nodes);
        lemma_tree_demands(after);
    }
}

/// Cleaning the titles of headings touches no position.
pub proof fn law_clean_titles_keep_positions(nodes: Seq<NodeView>)
    ensures
        positions_of(with_clean_titles(nodes)) == positions_of(nodes),
    decreases nodes,
{
    if nodes.len() > 0 {
        law_clean_titles_keep_positions(nodes.drop_last());
        law_clean_titles_keep_positions(nodes.last().children);
        let after = with_clean_titles(nodes);
        assert(after.drop_last() =~= with_clean_titles(nodes.drop_last()));
    }
}

proof fn lemma_own_concat(a: Seq<PositionView>, b: Seq<PositionView>)
    ensures
        own_positions(a + b) == own_positions(a) + own_positions(b),
    decreases b.len(),
{
    if b.len() == 0 {
        assert(a + b =~= a);
        assert(own_positions(a) + own_positions(b) =~= own_positions(a));
    } else {
        lemma_own_concat(a, b.drop_last());
        assert((a + b).drop_last() =~= a + b.drop_last());
        assert((a + b).last() == b.last());
        assert(own_positions(a + b) =~= own_positions(a) + own_positions(b));
    }
}

/// Only positions that refer to others are removed; the rest stays in its order.
pub proof fn law_only_references_removed(nodes: Seq<NodeView>)
    ensures
        positions_of(without_references(nodes)) == own_positions(positions_of(nodes)),
    decreases nodes,
{
    if nodes.len() > 0 {
        let node = nodes.last();
        law_only_references_removed(nodes.drop_last());
        law_only_references_removed(node.children);
        let after = without_references(nodes);
        assert(after.drop_last() =~= without_references(nodes.drop_last()));
        lemma_own_concat(positions_of(nodes.drop_last()), node.positions);
        lemma_own_concat(
            positions_of(nodes.drop_last()) + node.positions,
            positions_of(node.children),
        );
    }
}

/// Short texts taken from the layout change nothing of what is asked for.
pub proof fn law_short_texts_keep_demands(nodes: Seq<NodeView>, shorts: Seq<ShortTextView>)
    ensures
        demands(positions_of(with_short_texts(nodes, shorts))) == demands(positions_of(nodes)),
    decreases nodes,
{
    if nodes.len() > 0 {
        let node = nodes.last();
        law_short_texts_keep_demands(nodes.drop_last(), shorts);
        law_short_texts_keep_demands(node.children, shorts);
        let after = with_short_texts(nodes, shorts);
        assert(after.drop_last() =~= with_short_texts(nodes.drop_last(), shorts));
        lemma_alike(after.last().positions, node.positions);
        lemma_tree_demands(nodes);
        lemma_tree_demands(after);
    }
}

proof fn lemma_priced_alike(v: Seq<PositionView>, n: nat)
    requires
        n <= v.len(),
    ensures
        repaired_positions(v, n) matches Some((done, _)) ==> alike(done, v.take(n as int)),
    decreases n,
{
    if n > 0 {
        lemma_priced_alike(v, (n - 1) as nat);
        if let Some((done, _)) = repaired_positions(v, n) {
            let before = (repaired_positions(v, (n - 1) as nat)->0).0;
            let all = v.take(n as int);
            let rest = v.take(n - 1);
            assert forall|i: int| 0 <= i < done.len() implies (#[trigger] done[i]).oz == all[i].oz
                && done[i].quantity == all[i].quantity && done[i].unit == all[i].unit by {
                if i < n - 1 {
                    assert(done[i] == before[i]);
                    assert(all[i] == rest[i]);
                }
            }
        }
    }
}

/// Repairing prices changes nothing of what is asked for.
pub proof fn law_prices_keep_demands(nodes: Seq<NodeView>)
    ensures
        priced_tree(nodes) matches Some((after, _)) ==> demands(positions_of(after)) == demands(
            positions_of(nodes),
        ),
    decreases nodes,
{
    if nodes.len() > 0 {
        let node = nodes.last();
        law_prices_keep_demands(nodes.drop_last());
        law_prices_keep_demands(node.children);
        lemma_priced_alike(node.positions, node.positions.len());
        assert(node.positions.take(node.positions.len() as int) =~= node.positions);
        if let Some((after, _)) = priced_tree(nodes) {
            let before = (priced_tree(nodes.drop_last())->0).0;
            assert(after.drop_last() =~= before);
            lemma_alike(after.last().positions, node.positions);
            lemma_tree_demands(nodes);
            lemma_tree_demands(after);
        }
    }
}

proof fn lemma_candidates_within(v: Seq<PositionView>, n: nat)
    ensures
        candidates_of(v, n) matches Some(c) ==> within(c, n),
    decreases n,
{
    if n > 0 {
        lemma_candidates_within(v, (n - 1) as nat);
    }
}

/// Whether picked candidates exist.
spec fn picked_within(picked: Seq<nat>, n: nat) -> bool {
    forall|i: int| 0 <= i < picked.len() ==> #[trigger] picked[i] < n
}

proof fn lemma_choice_within(
    c: Seq<CandidateView>,
    required: Dec,
    positions: Seq<PositionView>,
    facts: Seq<FactView>,
    mask: nat,
)
    ensures
        best_choice(c, required, positions, facts, mask) matches Some(Some(choice)) ==> picked_within(
            choice.picked,
            c.len(),
        ),
    decreases mask,
{
    if mask > 1 {
        lemma_choice_within(c, required, positions, facts, (mask - 1) as nat);
        lemma_picks_within((mask - 1) as nat, 0, c.len());
    }
}

proof fn lemma_singles_within(c: Seq<CandidateView>, required: Dec, n: nat)
    ensures
        singles(c, required, n) matches Some(found) ==> picked_within(found, n),
    decreases n,
{
    if n > 0 {
        lemma_singles_within(c, required, (n - 1) as nat);
    }
}

proof fn lemma_restored_alike(
    v: Seq<PositionView>,
    c: Seq<CandidateView>,
    picked: Seq<nat>,
    k: nat,
)
    requires
        within(c, v.len()),
        picked_within(picked, c.len()),
        k <= picked.len(),
    ensures
        alike(restored(v, c, picked, k), v),
    decreases k,
{
    if k > 0 {
        lemma_restored_alike(v, c, picked, (k - 1) as nat);
        assert(picked[k - 1] < c.len());
        assert(c[picked[k - 1] as int].index < v.len());
    }
}

proof fn lemma_held_alike(
    oz: Seq<char>,
    v: Seq<PositionView>,
    c: Seq<CandidateView>,
    reported: Dec,
    base: Dec,
    facts: Seq<FactView>,
)
    requires
        within(c, v.len()),
    ensures
        held_against(oz, v, c, reported, base, facts) matches Some(checked) ==> alike(
            checked.positions,
            v,
        ),
{
    if let Some(rest) = subtracted(reported, base) {
        let required = to_cents(rest);
        lemma_choice_within(c, required, v, facts, two_to(c.len()));
        lemma_singles_within(c, required, c.len());
        if let Some(Some(picked)) = matching(c, required, v, facts) {
            lemma_restored_alike(v, c, picked, picked.len());
        }
    }
}

proof fn lemma_subtitle_alike(
    oz: Seq<char>,
    v: Seq<PositionView>,
    facts: Seq<FactView>,
    totals: Seq<StatedView>,
)
    ensures
        checked_subtitle(oz, v, facts, totals) matches Some(checked) ==> alike(checked.positions, v),
{
    lemma_candidates_within(v, v.len());
    if let Some(c) = candidates_of(v, v.len()) {
        if let (Some(reported), Some(base)) = (stated_for(totals, oz), regular_sum(v, v.len())) {
            lemma_held_alike(oz, v, c, reported, to_cents(base), facts);
        }
    }
}

/// Holding optional positions against the stated sums changes nothing of what is asked
/// for.
pub proof fn law_totals_keep_demands(
    nodes: Seq<NodeView>,
    facts: Seq<FactView>,
    totals: Seq<StatedView>,
)
    ensures
        checked_tree(nodes, facts, totals) matches Some((after, _)) ==> demands(
            positions_of(after),
        ) == demands(positions_of(nodes)),
    decreases nodes,
{
    if nodes.len() > 0 {
        let node = nodes.last();
        law_totals_keep_demands(nodes.drop_last(), facts, totals);
        law_totals_keep_demands(node.children, facts, totals);
        lemma_subtitle_alike(node.oz, node.positions, facts, totals);
        if let Some((after, _)) = checked_tree(nodes, facts, totals) {
            let before = (checked_tree(nodes.drop_last(), facts, totals)->0).0;
            assert(after.drop_last() =~= before);
            lemma_alike(after.last().positions, node.positions);
            lemma_tree_demands(nodes);
            lemma_tree_demands(after);
        }
    }
}

/// The entries at these indices.
spec fn picked_at<T>(v: Seq<T>, order: Seq<int>) -> Seq<T> {
    Seq::new(order.len(), |i: int| v[order[i]])
}

proof fn lemma_ranked<T>(v: Seq<T>, keys: Seq<Seq<int>>, n: nat)
    requires
        n <= v.len(),
    ensures
        picked_at(v, ranking(keys, n)).to_multiset() == v.take(n as int).to_multiset(),
    decreases n,
{
    if n == 0 {
        assert(picked_at(v, ranking(keys, 0)) =~= v.take(0));
    } else {
        lemma_ranked(v, keys, (n - 1) as nat);
        let before = ranking(keys, (n - 1) as nat);
        lemma_place_for(before, keys, keys[n - 1]);
        let p = place_for(before, keys, keys[n - 1]) as int;
        assert(picked_at(v, ranking(keys, n)) =~= picked_at(v, before).insert(p, v[n - 1]));
        assert(v.take(n as int) =~= v.take(n - 1).push(v[n - 1]));
        broadcast use vstd::seq_lib::group_to_multiset_ensures;

        vstd::seq_lib::to_multiset_insert(picked_at(v, before), p, v[n - 1]);
    }
}

proof fn lemma_heading_inserted(nodes: Seq<NodeView>, p: int, node: NodeView)
    requires
        0 <= p <= nodes.len(),
    ensures
        positions_of(nodes.insert(p, node)).to_multiset() == positions_of(nodes).to_multiset().add(
            positions_of(seq![node]).to_multiset(),
        ),
{
    let a = nodes.take(p);
    let b = nodes.skip(p);
    let one = seq![node];
    assert(nodes =~= a + b);
    assert(nodes.insert(p, node) =~= a + one + b);
    lemma_positions_concat(a, b);
    lemma_positions_concat(a, one);
    lemma_positions_concat(a + one, b);
    vstd::seq_lib::lemma_multiset_commutative(positions_of(a), positions_of(b));
    vstd::seq_lib::lemma_multiset_commutative(positions_of(a), positions_of(one));
    vstd::seq_lib::lemma_multiset_commutative(positions_of(a + one), positions_of(b));
    assert(positions_of(nodes.insert(p, node)).to_multiset() =~= positions_of(
        nodes,
    ).to_multiset().add(positions_of(one).to_multiset()));
}

proof fn lemma_ranked_headings(v: Seq<NodeView>, keys: Seq<Seq<int>>, n: nat)
    requires
        n <= v.len(),
    ensures
        positions_of(picked_at(v, ranking(keys, n))).to_multiset() == positions_of(
            v.take(n as int),
        ).to_multiset(),
    decreases n,
{
    if n == 0 {
        assert(picked_at(v, ranking(keys, 0)) =~= v.take(0));
    } else {
        lemma_ranked_headings(v, keys, (n - 1) as nat);
        let before = ranking(keys, (n - 1) as nat);
        lemma_place_for(before, keys, keys[n - 1]);
        let p = place_for(before, keys, keys[n - 1]) as int;
        let node = v[n - 1];
        let rest = v.take(n - 1);
        assert(picked_at(v, ranking(keys, n)) =~= picked_at(v, before).insert(p, node));
        lemma_heading_inserted(picked_at(v, before), p, node);
        assert(v.take(n as int) =~= rest + seq![node]);
        lemma_positions_concat(rest, seq![node]);
        vstd::seq_lib::lemma_multiset_commutative(positions_of(rest), positions_of(seq![node]));
    }
}

proof fn lemma_tidied(nodes: Seq<NodeView>)
    ensures
        tidied(nodes).len() == nodes.len(),
        positions_of(tidied(nodes)).to_multiset() == positions_of(nodes).to_multiset(),
    decreases nodes, 0nat,
{
    if nodes.len() > 0 {
        let node = nodes.last();
        let after = tidied(nodes);
        lemma_tidied(nodes.drop_last());
        law_sorting_keeps_positions(node.children);
        assert(after.drop_last() =~= tidied(nodes.drop_last()));
        let v = node.positions;
        lemma_ranked(v, position_keys(v), v.len());
        law_ranking(position_keys(v), v.len());
        assert(v.take(v.len() as int) =~= v);
        assert(after.last().positions =~= picked_at(v, ranking(position_keys(v), v.len())));
        let x = positions_of(after.drop_last());
        let y = positions_of(nodes.drop_last());
        let below = positions_of(after.last().children);
        vstd::seq_lib::lemma_multiset_commutative(x, after.last().positions);
        vstd::seq_lib::lemma_multiset_commutative(x + after.last().positions, below);
        vstd::seq_lib::lemma_multiset_commutative(y, v);
        vstd::seq_lib::lemma_multiset_commutative(y + v, positions_of(node.children));
    }
}

/// Sorting a bill moves positions only: none is lost, added or changed.
pub proof fn law_sorting_keeps_positions(nodes: Seq<NodeView>)
    ensures
        positions_of(sorted_tree(nodes)).to_multiset() == positions_of(nodes).to_multiset(),
    decreases nodes, 1nat,
{
    lemma_tidied(nodes);
    let v = tidied(nodes);
    lemma_ranked_headings(v, node_keys(nodes), v.len());
    law_ranking(node_keys(nodes), v.len());
    assert(v.take(v.len() as int) =~= v);
    assert(sorted_tree(nodes) =~= picked_at(v, ranking(node_keys(nodes), v.len())));
}

proof fn lemma_supplemented(
    roots: Seq<NodeView>,
    found: Seq<PositionView>,
    headings: Seq<HeadingView>,
    n: nat,
)
    ensures
        positions_of(roots).to_multiset().subset_of(
            positions_of(supplemented(roots, found, headings, n).0).to_multiset(),
        ),
        positions_of(supplemented(roots, found, headings, n).0).len() == positions_of(roots).len()
            + supplemented(roots, found, headings, n).1,
    decreases n,
{
    if n > 0 {
        lemma_supplemented(roots, found, headings, (n - 1) as nat);
        let before = supplemented(roots, found, headings, (n - 1) as nat).0;
        let p = found[n - 1];
        let page = match p.page_from {
            Some(page) => page,
            None => 0,
        };
        lemma_split_len(p.oz, '.');
        law_filed_once(before, heading_path(p.oz), 0, headings, page, p);
        vstd::seq_lib::to_multiset_len(positions_of(before));
        vstd::seq_lib::to_multiset_len(positions_of(supplemented(roots, found, headings, n).0));
    }
}

/// Positions with placeholders are only added: every position that was read before stays
/// as it is, and as many come to them as are told.
pub proof fn law_placeholders_only_add(boq: BoqView, text: Seq<char>)
    ensures
        positions_of(boq.roots).to_multiset().subset_of(
            positions_of(with_placeholders(boq, text).0.roots).to_multiset(),
        ),
        positions_of(with_placeholders(boq, text).0.roots).len() == positions_of(boq.roots).len()
            + with_placeholders(boq, text).1,
{
    let read = recovery_of(text);
    let n = read.recovered.len();
    lemma_supplemented(boq.roots, read.recovered, read.headings, n);
    let roots = supplemented(boq.roots, read.recovered, read.headings, n).0;
    law_sorting_keeps_positions(roots);
    vstd::seq_lib::to_multiset_len(positions_of(roots));
    vstd::seq_lib::to_multiset_len(positions_of(sorted_tree(roots)));
}

/// Nothing that was asked for is lost or changed on the way from a text to the bill: the
/// bill asks, in their order, for what the positions ask for that were read and completed,
/// but for those that only refer to others.
pub proof fn law_demands_kept(
    source: Seq<char>,
    text: Seq<char>,
    recognized: bool,
    layout: Result<Seq<char>, Seq<char>>,
)
    ensures
        (bill_of_text(source, text), bill_of_document(source, text, recognized, layout)) matches (
            Ok(read),
            Ok(boq),
        ) ==> {
            let completed = with_placeholders(read, text).0;
            let joined = with_references_joined(completed);
            &&& demands(positions_of(joined.roots)) == demands(positions_of(completed.roots))
            &&& demands(positions_of(boq.roots)) == demands(own_positions(positions_of(joined.roots)))
        },
{
    if let (Ok(read), Ok(boq)) = (
        bill_of_text(source, text),
        bill_of_document(source, text, recognized, layout),
    ) {
        let completed = with_placeholders(read, text).0;
        let noted = with_placeholders(with_recognition_note(read, recognized), text).0;
        assert(noted.roots == completed.roots);
        let joined = repaired_tree(completed.roots);
        law_joined_texts_keep_demands(completed.roots);
        let own = without_references(joined);
        law_only_references_removed(joined);
        let shown = match layout {
            Ok(shape) => with_short_texts(own, bold_short_texts(shape)),
            Err(_) => own,
        };
        if let Ok(shape) = layout {
            law_short_texts_keep_demands(own, bold_short_texts(shape));
        }
        law_clean_titles_keep_positions(shown);
        let titled = with_clean_titles(shown);
        assert(repaired_bill(read, text, recognized, layout).roots == titled);
        law_prices_keep_demands(titled);
        let priced = (priced_tree(titled)->0).0;
        let facts = facts_of(text);
        law_totals_keep_demands(priced, facts.facts, facts.totals);
    }
}

} // verus!
