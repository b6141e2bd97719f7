//! Repairs of positions that were read where a text only names an ordinal number.

use crate::gaeb2000::{behind, strip_prefix};
use crate::model::{
    group_model_views, node_views, opt_text, position_views, BillOfQuantities, BoqView, Node,
    NodeView, Position, PositionView,
};
use crate::pdf_cleanup::{is_doubled, numbered_twice};
use crate::text::{
    chars, contains, ends_with, has, lemma_texts_push, lower, lowered, same, slice, starts_with,
    texts, trim, trim_end, trimmed, trimmed_end,
};
use crate::tree::{positions, positions_of, ref_views};
use crate::x83::{lacks, says_dropped, text_drops};
use vstd::prelude::*;

verus! {

/// The texts of a position, as far as there are any.
pub open spec fn whole_text(p: PositionView) -> Seq<char> {
    let a = trim(p.short_text);
    let b = trim(p.long_text);
    if a.len() == 0 {
        b
    } else if b.len() == 0 {
        a
    } else {
        a + "\n"@ + b
    }
}

pub fn joined_text(position: &Position) -> (r: String)
    ensures
        r@ == whole_text(position@),
{
    let a = trimmed(position.short_text.as_str());
    let b = trimmed(position.long_text.as_str());
    if a.as_str().is_empty() {
        b
    } else if b.as_str().is_empty() {
        a
    } else {
        a.concat("\n").concat(b.as_str())
    }
}

/// Whether a position has what only a position has: a quantity, a unit, a price, or the
/// remark that it is optional or left out.
pub open spec fn real_position(p: PositionView) -> bool {
    ||| p.quantity is Some
    ||| !lacks(p.unit)
    ||| p.unit_price is Some
    ||| p.total_price is Some
    ||| p.provisional
    ||| p.price_only
    ||| text_drops(whole_text(p))
}

fn has_unit(position: &Position) -> (r: bool)
    ensures
        r == !lacks(opt_text(position.unit)),
{
    match &position.unit {
        Some(unit) => !trimmed(unit.as_str()).as_str().is_empty(),
        None => false,
    }
}

pub fn is_real_position(position: &Position) -> (r: bool)
    ensures
        r == real_position(position@),
{
    position.quantity.is_some() || has_unit(position) || position.unit_price.is_some()
        || position.total_price.is_some() || position.provisional || position.price_only
        || says_dropped(joined_text(position).as_str())
}

/// Whether a text is that of a sum line.
pub open spec fn sum_artifact(value: Seq<char>) -> bool {
    let small = lower(trim(value));
    ||| "summe"@.is_prefix_of(small)
    ||| contains(small, "untertitelsumme"@)
    ||| contains(small, "titel summe"@)
    ||| contains(small, "titelsumme"@)
    ||| contains(small, "summe untertitel"@)
    ||| contains(small, "summe titel"@)
}

pub fn is_sum_artifact(value: &str) -> (r: bool)
    ensures
        r == sum_artifact(value@),
{
    let small = lowered(trimmed(value).as_str());
    let small = small.as_str();
    starts_with(small, "summe") || has(small, "untertitelsumme") || has(small, "titel summe")
        || has(small, "titelsumme") || has(small, "summe untertitel") || has(small, "summe titel")
}

/// The end of a text in small letters, without white space behind it.
pub open spec fn small_tail(s: Seq<char>) -> Seq<char> {
    trim_end(
        lower(
            if s.len() > 240 {
                s.skip(s.len() - 240)
            } else {
                s
            },
        ),
    )
}

/// Whether the end of a text names a position.
pub open spec fn names_position(tail: Seq<char>) -> bool {
    ||| contains(tail, "position "@)
    ||| contains(tail, "positionen "@)
    ||| contains(tail, "pos. "@)
    ||| contains(tail, "positionsbezug"@)
    ||| contains(tail, "bezug zu position"@)
    ||| contains(tail, "bezug auf position"@)
    ||| contains(tail, "bereits in position"@)
    ||| contains(tail, "in position"@)
}

/// Whether a text breaks off where more has to follow.
pub open spec fn left_open(tail: Seq<char>) -> bool {
    ||| " und"@.is_suffix_of(tail)
    ||| " sowie"@.is_suffix_of(tail)
    ||| " bzw."@.is_suffix_of(tail)
    ||| ","@.is_suffix_of(tail)
    ||| "/"@.is_suffix_of(tail)
}

/// The last page of a position, as far as it is known.
pub open spec fn last_page(p: PositionView) -> Option<usize> {
    if p.page_to is Some {
        p.page_to
    } else {
        p.page_from
    }
}

/// Whether a position can continue another by the pages on which they stand.
pub open spec fn nearby(previous: PositionView, candidate: PositionView) -> bool {
    match (last_page(previous), candidate.page_from) {
        (Some(a), Some(b)) => b <= a + 1,
        _ => true,
    }
}

/// Whether what was read as a position only continues the text of the one before.
pub open spec fn continues(previous: PositionView, candidate: PositionView) -> bool {
    let tail = small_tail(whole_text(previous));
    &&& !real_position(candidate)
    &&& nearby(previous, candidate)
    &&& names_position(tail) || left_open(tail)
}

fn tail_of(s: &str) -> (r: String)
    ensures
        r@ == small_tail(s@),
{
    let v = chars(s);
    let tail = if v.len() > 240 {
        let t = slice(&v, v.len() - 240, v.len());
        assert(t@ =~= s@.skip(s@.len() - 240));
        t
    } else {
        s.to_owned()
    };
    trimmed_end(lowered(tail.as_str()).as_str())
}

pub fn is_reference_continuation(previous: &Position, candidate: &Position) -> (r: bool)
    ensures
        r == continues(previous@, candidate@),
{
    if is_real_position(candidate) {
        return false;
    }
    let tail = tail_of(joined_text(previous).as_str());
    let tail = tail.as_str();
    let explicit_reference = has(tail, "position ") || has(tail, "positionen ") || has(
        tail,
        "pos. ",
    ) || has(tail, "positionsbezug") || has(tail, "bezug zu position") || has(
        tail,
        "bezug auf position",
    ) || has(tail, "bereits in position") || has(tail, "in position");
    let open_conjunction = ends_with(tail, " und") || ends_with(tail, " sowie") || ends_with(
        tail,
        " bzw.",
    ) || ends_with(tail, ",") || ends_with(tail, "/");
    let last = if previous.page_to.is_some() {
        previous.page_to
    } else {
        previous.page_from
    };
    let nearby_pages = match (last, candidate.page_from) {
        (Some(a), Some(b)) => b <= a || b - 1 <= a,
        _ => true,
    };
    nearby_pages && (explicit_reference || open_conjunction)
}

/// A position with the text of what continues it.
pub open spec fn with_continuation(previous: PositionView, candidate: PositionView) -> PositionView {
    let text = trim(whole_text(candidate));
    let continuation = if text.len() == 0 {
        candidate.oz
    } else {
        candidate.oz + " "@ + text
    };
    PositionView {
        long_text: if trim(previous.long_text).len() == 0 {
            continuation
        } else {
            previous.long_text + "\n"@ + continuation
        },
        page_to: match last_page(candidate) {
            None => previous.page_to,
            Some(page) => match previous.page_to {
                Some(known) => Some(
                    if known > page {
                        known
                    } else {
                        page
                    },
                ),
                None => Some(page),
            },
        },
        ..previous
    }
}

pub fn append_reference_continuation(previous: &mut Position, candidate: &Position)
    ensures
        final(previous)@ == with_continuation(old(previous)@, candidate@),
{
    let text = trimmed(joined_text(candidate).as_str());
    let continuation = if text.as_str().is_empty() {
        candidate.oz.clone()
    } else {
        candidate.oz.clone().concat(" ").concat(text.as_str())
    };
    if trimmed(previous.long_text.as_str()).as_str().is_empty() {
        previous.long_text = continuation;
    } else {
        previous.long_text = previous.long_text.clone().concat("\n").concat(continuation.as_str());
    }
    let last = if candidate.page_to.is_some() {
        candidate.page_to
    } else {
        candidate.page_from
    };
    if let Some(page) = last {
        let known: usize = match previous.page_to {
            Some(known) => known,
            None => page,
        };
        previous.page_to = Some(
            if known > page {
                known
            } else {
                page
            },
        );
    }
}

/// The repaired positions after one more.
pub open spec fn with_candidate(before: Seq<PositionView>, c: PositionView) -> Seq<PositionView> {
    let text = whole_text(c);
    if real_position(c) {
        before.push(c)
    } else if sum_artifact(text) || trim(text).len() == 0 {
        before
    } else if before.len() > 0 && continues(before.last(), c) {
        before.drop_last().push(with_continuation(before.last(), c))
    } else {
        before.push(c)
    }
}

/// The first `n` positions repaired.
pub open spec fn repaired(v: Seq<PositionView>, n: nat) -> Seq<PositionView>
    decreases n,
{
    if n == 0 {
        seq![]
    } else {
        with_candidate(repaired(v, (n - 1) as nat), v[n - 1])
    }
}

fn add_candidate(target: &mut Vec<Position>, candidate: &Position)
    ensures
        position_views(final(target)@) == with_candidate(
            position_views(old(target)@),
            candidate@,
        ),
{
    broadcast use group_model_views;
    let ghost before = position_views(target@);
    assert(before.len() == target@.len());
    if is_real_position(candidate) {
        target.push(candidate.clone());
        return;
    }
    let text = joined_text(candidate);
    if is_sum_artifact(text.as_str()) || trimmed(text.as_str()).as_str().is_empty() {
        return;
    }
    if target.len() > 0 {
        let n: usize = target.len() - 1;
        assert(before.last() == target@[n as int]@);
        if is_reference_continuation(&target[n], candidate) {
            let mut previous = Position::default();
            std::mem::swap(&mut previous, &mut target[n]);
            append_reference_continuation(&mut previous, candidate);
            let ghost changed = previous@;
            target.set(n, previous);
            assert(position_views(target@) =~= before.drop_last().push(changed));
            return;
        }
    }
    target.push(candidate.clone());
}

pub fn repair_positions(positions: &mut Vec<Position>)
    ensures
        position_views(final(positions)@) == repaired(
            position_views(old(positions)@),
            old(positions)@.len(),
        ),
{
    let ghost all = position_views(positions@);
    let mut target: Vec<Position> = Vec::new();
    let mut i: usize = 0;
    assert(position_views(target@) =~= repaired(all, 0));
    while i < positions.len()
        invariant
            i <= positions@.len(),
            all == position_views(positions@),
            position_views(target@) == repaired(all, i as nat),
        decreases positions@.len() - i,
    {
        assert(all[i as int] == positions@[i as int]@);
        add_candidate(&mut target, &positions[i]);
        i = i + 1;
    }
    *positions = target;
}

/// The tree with the positions of each heading repaired.
pub open spec fn repaired_tree(nodes: Seq<NodeView>) -> Seq<NodeView>
    decreases nodes,
{
    if nodes.len() == 0 {
        seq![]
    } else {
        let node = nodes.last();
        repaired_tree(nodes.drop_last()).push(
            NodeView {
                children: repaired_tree(node.children),
                positions: repaired(node.positions, node.positions.len()),
                ..node
            },
        )
    }
}

fn repair_nodes(nodes: &mut Vec<Node>)
    ensures
        node_views(final(nodes)@) == repaired_tree(node_views(old(nodes)@)),
    decreases *old(nodes),
{
    broadcast use group_model_views;
    let ghost all = node_views(nodes@);
    let ghost start = *nodes;
    let len: usize = nodes.len();
    let mut i: usize = 0;
    while i < len
        invariant
            i <= len == nodes@.len() == all.len(),
            all == node_views(start@),
            start == *old(nodes),
            start@.len() == len,
            node_views(nodes@).take(i as int) == repaired_tree(all.take(i as int)),
            forall|j: int| i <= j < len ==> nodes@[j] == start@[j],
        decreases len - i,
    {
        broadcast use group_model_views;
        let ghost here = node_views(nodes@);
        let mut node = Node::default();
        std::mem::swap(&mut node, &mut nodes[i]);
        assert(node == start@[i as int]);
        let ghost before = node@;
        assert(before == all[i as int]);
        repair_positions(&mut node.positions);
        assert(decreases_to!(start => start@[i as int].children));
        repair_nodes(&mut node.children);
        let ghost after = node@;
        assert(all.take(i + 1).drop_last() =~= all.take(i as int));
        assert(all.take(i + 1).last() == before);
        nodes.set(i, node);
        assert(node_views(nodes@) =~= here.update(i as int, after));
        assert(node_views(nodes@).take(i + 1) =~= here.take(i as int).push(after));
        i = i + 1;
    }
    assert(all.take(len as int) =~= all);
    assert(node_views(nodes@).take(len as int) =~= node_views(nodes@));
}

/// Whether a warning still holds: one of a doubled number while the number is doubled,
/// one of an incomplete line while the position is there.
pub open spec fn still_holds(warning: Seq<char>, v: Seq<PositionView>) -> bool {
    match behind(warning, "Doppelte OZ: "@) {
        Some(oz) => numbered_twice(v, trim(oz)),
        None => match behind(warning, "Unvollständige Preiszeile: "@) {
            Some(oz) => exists|i: int| 0 <= i < v.len() && (#[trigger] v[i]).oz == trim(oz),
            None => true,
        },
    }
}

pub open spec fn warnings_kept(w: Seq<Seq<char>>, v: Seq<PositionView>) -> Seq<Seq<char>>
    decreases w.len(),
{
    if w.len() == 0 {
        seq![]
    } else if still_holds(w.last(), v) {
        warnings_kept(w.drop_last(), v).push(w.last())
    } else {
        warnings_kept(w.drop_last(), v)
    }
}

fn is_numbered(all: &Vec<&Position>, oz: &str) -> (r: bool)
    ensures
        r == exists|i: int|
            0 <= i < ref_views(all@).len() && (#[trigger] ref_views(all@)[i]).oz == oz@,
{
    let ghost views = ref_views(all@);
    let mut i: usize = 0;
    while i < all.len()
        invariant
            i <= all@.len() == views.len(),
            views == ref_views(all@),
            forall|j: int| 0 <= j < i ==> (#[trigger] views[j]).oz != oz@,
        decreases all@.len() - i,
    {
        assert(views[i as int] == all@[i as int]@);
        if same(all[i].oz.as_str(), oz) {
            return true;
        }
        i = i + 1;
    }
    false
}

fn kept_warnings(warnings: &Vec<String>, all: &Vec<&Position>) -> (r: Vec<String>)
    ensures
        texts(r@) == warnings_kept(texts(warnings@), ref_views(all@)),
{
    broadcast use lemma_texts_push;
    let ghost w = texts(warnings@);
    let mut r: Vec<String> = Vec::new();
    let mut i: usize = 0;
    assert(texts(r@) =~= warnings_kept(w.take(0), ref_views(all@)));
    while i < warnings.len()
        invariant
            i <= warnings@.len(),
            w == texts(warnings@),
            texts(r@) == warnings_kept(w.take(i as int), ref_views(all@)),
        decreases warnings@.len() - i,
    {
        broadcast use lemma_texts_push;
        assert(w.take(i + 1).drop_last() =~= w.take(i as int));
        assert(w.take(i + 1).last() == warnings@[i as int]@);
        let keep = match strip_prefix(warnings[i].as_str(), "Doppelte OZ: ") {
            Some(oz) => is_doubled(all, trimmed(oz.as_str()).as_str()),
            None => match strip_prefix(warnings[i].as_str(), "Unvollständige Preiszeile: ") {
                Some(oz) => is_numbered(all, trimmed(oz.as_str()).as_str()),
                None => true,
            },
        };
        if keep {
            r.push(warnings[i].clone());
        }
        i = i + 1;
    }
    assert(w.take(warnings@.len() as int) =~= w);
    r
}

/// Drops warnings that no longer hold.
pub fn refresh_parser_warnings(boq: &mut BillOfQuantities)
    ensures
        final(boq)@ == (BoqView {
            warnings: warnings_kept(old(boq)@.warnings, positions_of(old(boq)@.roots)),
            ..old(boq)@
        }),
{
    let mut warnings: Vec<String> = Vec::new();
    std::mem::swap(&mut warnings, &mut boq.warnings);
    let all = positions(&boq.roots);
    let kept = kept_warnings(&warnings, &all);
    boq.warnings = kept;
}

/// The bill with split references put back together.
pub open spec fn with_references_joined(boq: BoqView) -> BoqView {
    let roots = repaired_tree(boq.roots);
    BoqView { roots, warnings: warnings_kept(boq.warnings, positions_of(roots)), ..boq }
}

/// Puts what was split from the text of a position back to it, and removes sum lines and
/// empty entries that were read as positions.
pub fn repair_split_references(boq: &mut BillOfQuantities)
    ensures
        final(boq)@ == with_references_joined(old(boq)@),
{
    repair_nodes(&mut boq.roots);
    refresh_parser_warnings(boq);
}

/// What was split from a position comes back to it as one more line of its long text: the
/// number that was taken for that of a position, and the text behind it. The position ends
/// where the later of both ends, and keeps everything else.
pub proof fn law_continuation_joined(previous: PositionView, candidate: PositionView)
    ensures
        ({
            let r = with_continuation(previous, candidate);
            let text = trim(whole_text(candidate));
            let tail = candidate.oz + (if text.len() == 0 {
                seq![]
            } else {
                " "@ + text
            });
            &&& trim(previous.long_text).len() > 0 ==> r.long_text == previous.long_text + "\n"@
                + tail
            &&& trim(previous.long_text).len() == 0 ==> r.long_text == tail
            &&& r.oz == previous.oz && r.short_text == previous.short_text
            &&& r.quantity == previous.quantity && r.unit == previous.unit
            &&& r.unit_price == previous.unit_price && r.total_price == previous.total_price
            &&& r.page_from == previous.page_from
            &&& previous.page_to is Some && candidate.page_to is Some ==> r.page_to is Some
                && r.page_to->0 >= previous.page_to->0 && r.page_to->0 >= candidate.page_to->0 && (
            r.page_to == previous.page_to || r.page_to == candidate.page_to)
            &&& candidate.page_to is None && candidate.page_from is None ==> r.page_to
                == previous.page_to
        }),
{
    let text = trim(whole_text(candidate));
    if text.len() == 0 {
        assert(candidate.oz + Seq::<char>::empty() =~= candidate.oz);
    } else {
        assert(candidate.oz + (" "@ + text) =~= candidate.oz + " "@ + text);
        assert(previous.long_text + "\n"@ + (candidate.oz + " "@ + text) =~= previous.long_text
            + "\n"@ + (candidate.oz + (" "@ + text)));
    }
}

/// A position with a quantity, a unit, a price or the mark of an optional position stays,
/// unchanged and at the end of those before it. Of the others, empty ones and sum lines go,
/// those that continue the one before come back to it, and the rest stays; no other
/// position is touched.
pub proof fn law_candidates_sorted_out(before: Seq<PositionView>, c: PositionView)
    ensures
        ({
            let r = with_candidate(before, c);
            &&& c.quantity is Some || c.unit_price is Some || c.total_price is Some || c.provisional
                || c.price_only || (c.unit is Some && trim(c.unit->0).len() > 0) ==> r
                == before.push(c)
            &&& !real_position(c) && trim(whole_text(c)).len() == 0 ==> r == before
            &&& !real_position(c) && "summe"@.is_prefix_of(lower(trim(whole_text(c)))) ==> r
                == before
            &&& !real_position(c) && !sum_artifact(whole_text(c)) && trim(whole_text(c)).len() > 0
                && before.len() == 0 ==> r == before.push(c)
            &&& r.len() == before.len() || r == before.push(c)
            &&& forall|j: int|
                0 <= j < before.len() - 1 ==> #[trigger] r[j] == before[j]
            &&& r.len() == before.len() && before.len() > 0 && r.last() != before.last()
                ==> r.last() == with_continuation(before.last(), c) && continues(before.last(), c)
        }),
{
    if before.len() > 0 {
        assert(before.drop_last().push(before.last()) =~= before);
    }
}

/// What was read as a position continues the one before only on the same page or the next,
/// and only where the text before names a position or breaks off with a word that calls
/// for more.
pub proof fn law_continuations(previous: PositionView, candidate: PositionView)
    requires
        continues(previous, candidate),
    ensures
        candidate.quantity is None,
        candidate.unit_price is None,
        candidate.total_price is None,
        !candidate.provisional,
        !candidate.price_only,
        previous.page_to is Some && candidate.page_from is Some ==> candidate.page_from->0
            <= previous.page_to->0 + 1,
        ({
            let tail = small_tail(whole_text(previous));
            ||| contains(tail, "position "@)
            ||| contains(tail, "positionen "@)
            ||| contains(tail, "pos. "@)
            ||| contains(tail, "positionsbezug"@)
            ||| contains(tail, "bezug zu position"@)
            ||| contains(tail, "bezug auf position"@)
            ||| contains(tail, "bereits in position"@)
            ||| contains(tail, "in position"@)
            ||| " und"@.is_suffix_of(tail)
            ||| " sowie"@.is_suffix_of(tail)
            ||| " bzw."@.is_suffix_of(tail)
            ||| ","@.is_suffix_of(tail)
            ||| "/"@.is_suffix_of(tail)
        }),
{
}

/// A warning of a doubled number stays while two positions have the number, one of an
/// incomplete line while a position has it, and any other stays.
pub proof fn law_warnings_refreshed(w: Seq<char>, v: Seq<PositionView>, i: int, j: int)
    requires
        0 <= i < j < v.len(),
    ensures
        v[i].oz == v[j].oz && w == "Doppelte OZ: "@ + v[i].oz && trim(v[i].oz) == v[i].oz
            ==> still_holds(w, v),
        w == "Unvollständige Preiszeile: "@ + v[i].oz && trim(v[i].oz) == v[i].oz ==> still_holds(
            w,
            v,
        ),
        !"Doppelte OZ: "@.is_prefix_of(w) && !"Unvollständige Preiszeile: "@.is_prefix_of(w)
            ==> still_holds(w, v),
{
    let a = "Doppelte OZ: "@;
    let b = "Unvollständige Preiszeile: "@;
    if w == a + v[i].oz {
        assert(w.subrange(0, a.len() as int) =~= a);
        assert(w.skip(a.len() as int) =~= v[i].oz);
    }
    if w == b + v[i].oz {
        assert(w.subrange(0, b.len() as int) =~= b);
        assert(w.skip(b.len() as int) =~= v[i].oz);
        reveal_strlit("Doppelte OZ: ");
        reveal_strlit("Unvollständige Preiszeile: ");
        if a.is_prefix_of(w) {
            assert(w.subrange(0, a.len() as int)[0] == a[0]);
            assert(w[0] == b[0]);
        }
    }
}

} // verus!
