//! What holds of optional positions that were held against the sums of a document.

use crate::decimal::{added, exact_sum, magnitude, mantissa_at, negated, pow10, subtracted, Dec};
use crate::model::PositionView;
use crate::price_cleanup::{agree, to_cents};
use crate::price_laws::{lemma_pow10_small, lemma_rounded};
use crate::provisional_validation::{
    best_choice, candidates_of, checked_subtitle, fact_index, law_best_choice, makes_up, matching,
    optional, picks, regular_sum, restored, singles, stated_for, sum_of, total_seen, two_to,
    with_fact, would_cost, CandidateView, FactView, StatedView,
};
use vstd::prelude::*;

verus! {

/// An amount in at most two decimal places, counted in cents.
pub open spec fn cents(d: Dec) -> int {
    if d.scale == 0 {
        100 * d.mantissa
    } else if d.scale == 1 {
        10 * d.mantissa
    } else {
        d.mantissa
    }
}

/// Whether an amount has at most two decimal places and is less than this many cents.
pub open spec fn in_cents(d: Dec, limit: int) -> bool {
    d.scale <= 2 && -limit <= cents(d) <= limit
}

/// The totals of those of the first `n` positions that are not optional, in cents.
pub open spec fn regular_cents(v: Seq<PositionView>, n: nat) -> int
    decreases n,
{
    if n == 0 {
        0
    } else {
        let p = v[n - 1];
        regular_cents(v, (n - 1) as nat) + if p.total_price is Some && !p.price_only
            && !p.provisional {
            cents(p.total_price->0)
        } else {
            0
        }
    }
}

/// Whether the totals of positions are given in cents, and neither they nor what the
/// positions would cost come to ten thousand million of the currency.
pub open spec fn priced_in_cents(v: Seq<PositionView>) -> bool {
    forall|i: int|
        0 <= i < v.len() ==> {
            &&& (#[trigger] v[i]).total_price is Some ==> in_cents(
                v[i].total_price->0,
                1_000_000_000_000,
            )
            &&& would_cost(v[i]) matches Some(Some(cost)) ==> in_cents(cost, 1_000_000_000_000)
        }
}

proof fn lemma_scales(a: Dec)
    requires
        a.scale <= 2,
    ensures
        mantissa_at(a, a.scale) == a.mantissa,
        a.scale <= 1 ==> mantissa_at(a, 1) == (if a.scale == 0 {
            10 * a.mantissa
        } else {
            a.mantissa
        }),
        mantissa_at(a, 2) == cents(a),
{
    lemma_pow10_small(0);
    assert(a.mantissa * 1 == a.mantissa);
    assert(a.mantissa * 10 == 10 * a.mantissa);
    assert(a.mantissa * 100 == 100 * a.mantissa);
}

proof fn lemma_added(a: Dec, b: Dec)
    requires
        in_cents(a, 10_000_000_000_000_000_000_000),
        in_cents(b, 10_000_000_000_000_000_000_000),
    ensures
        added(a, b) is Some,
        added(a, b)->0.scale <= 2,
        cents(added(a, b)->0) == cents(a) + cents(b),
{
    lemma_scales(a);
    lemma_scales(b);
    assert(exact_sum(a, b) is Some);
}

proof fn lemma_subtracted(a: Dec, b: Dec)
    requires
        in_cents(a, 10_000_000_000_000_000_000_000),
        in_cents(b, 10_000_000_000_000_000_000_000),
    ensures
        subtracted(a, b) is Some,
        subtracted(a, b)->0.scale <= 2,
        cents(subtracted(a, b)->0) == cents(a) - cents(b),
{
    let n = negated(b);
    lemma_scales(a);
    lemma_scales(n);
    assert(cents(n) == -cents(b));
    assert(exact_sum(a, n) is Some);
}

proof fn lemma_agree(a: Dec, b: Dec)
    requires
        in_cents(a, 10_000_000_000_000_000_000_000),
        in_cents(b, 10_000_000_000_000_000_000_000),
    ensures
        agree(a, b) == Some(-2 <= cents(a) - cents(b) <= 2),
{
    lemma_subtracted(a, b);
    let d = subtracted(a, b)->0;
    lemma_pow10_small(0);
    let m = magnitude(d.mantissa) as int;
    assert(m * 100 == 100 * m);
    if d.scale == 0 {
        assert(2 * pow10(0) == 2);
    } else if d.scale == 1 {
        assert(2 * pow10(1) == 20);
    } else {
        assert(2 * pow10(2) == 200);
    }
}

proof fn lemma_regular(v: Seq<PositionView>, n: nat)
    requires
        priced_in_cents(v),
        n <= v.len() <= 1_000_000,
    ensures
        regular_sum(v, n) is Some,
        in_cents(regular_sum(v, n)->0, (n * 1_000_000_000_000) as int),
        cents(regular_sum(v, n)->0) == regular_cents(v, n),
    decreases n,
{
    if n > 0 {
        lemma_regular(v, (n - 1) as nat);
        let p = v[n - 1];
        if p.total_price is Some {
            lemma_added(regular_sum(v, (n - 1) as nat)->0, p.total_price->0);
        }
    }
}

/// Whether candidates are in the order of their positions, and each is an optional
/// position with what it would cost.
spec fn sound(c: Seq<CandidateView>, v: Seq<PositionView>, n: nat) -> bool {
    &&& forall|i: int|
        0 <= i < c.len() ==> {
            &&& (#[trigger] c[i]).index < n
            &&& optional(v[c[i].index as int])
            &&& would_cost(v[c[i].index as int]) == Some(Some(c[i].value))
        }
    &&& forall|i: int, j: int|
        0 <= i < j < c.len() ==> (#[trigger] c[i]).index < (#[trigger] c[j]).index
}

proof fn lemma_candidates(v: Seq<PositionView>, n: nat)
    requires
        n <= v.len(),
        candidates_of(v, n) is Some,
    ensures
        sound(candidates_of(v, n)->0, v, n),
        candidates_of(v, n)->0.len() <= n,
    decreases n,
{
    if n > 0 {
        lemma_candidates(v, (n - 1) as nat);
    }
}

/// Whether numbers grow from each to the next, and stay within these bounds.
spec fn growing(picked: Seq<nat>, from: nat, n: nat) -> bool {
    &&& forall|i: int| 0 <= i < picked.len() ==> from <= #[trigger] picked[i] < n
    &&& forall|i: int, j: int|
        0 <= i < j < picked.len() ==> #[trigger] picked[i] < #[trigger] picked[j]
}

proof fn lemma_picks_grow(mask: nat, from: nat, n: nat)
    ensures
        growing(picks(mask, from, n), from, n),
        from <= n ==> picks(mask, from, n).len() <= n - from,
    decreases n - from,
{
    if from < n {
        lemma_picks_grow(mask / 2, from + 1, n);
        let rest = picks(mask / 2, from + 1, n);
        let whole = seq![from] + rest;
        assert forall|i: int, j: int| 0 <= i < j < whole.len() implies #[trigger] whole[i]
            < #[trigger] whole[j] by {
            assert(whole[j] == rest[j - 1]);
            if i > 0 {
                assert(whole[i] == rest[i - 1]);
            }
        }
    }
}

proof fn lemma_choice_made(
    c: Seq<CandidateView>,
    required: Dec,
    v: Seq<PositionView>,
    facts: Seq<FactView>,
    mask: nat,
)
    requires
        best_choice(c, required, v, facts, mask) matches Some(Some(_)),
    ensures
        growing((best_choice(c, required, v, facts, mask)->0)->0.picked, 0, c.len()),
        (best_choice(c, required, v, facts, mask)->0)->0.picked.len() <= c.len(),
        makes_up(c, (best_choice(c, required, v, facts, mask)->0)->0.picked, required) == Some(
            true,
        ),
    decreases mask,
{
    if mask > 1 {
        let m = (mask - 1) as nat;
        lemma_picks_grow(m, 0, c.len());
        if best_choice(c, required, v, facts, m) matches Some(Some(_)) {
            lemma_choice_made(c, required, v, facts, m);
        }
    }
}

proof fn lemma_singles(c: Seq<CandidateView>, required: Dec, n: nat)
    requires
        n <= c.len(),
        singles(c, required, n) is Some,
    ensures
        growing(singles(c, required, n)->0, 0, n),
        forall|i: int|
            0 <= i < singles(c, required, n)->0.len() ==> agree(
                c[(#[trigger] (singles(c, required, n)->0)[i]) as int].value,
                required,
            ) == Some(true),
    decreases n,
{
    if n > 0 {
        lemma_singles(c, required, (n - 1) as nat);
    }
}

/// What the first `k` picked candidates come to, in cents.
spec fn picked_cents(c: Seq<CandidateView>, picked: Seq<nat>, k: nat) -> int
    decreases k,
{
    if k == 0 {
        0
    } else {
        picked_cents(c, picked, (k - 1) as nat) + cents(c[picked[k - 1] as int].value)
    }
}

proof fn lemma_sum(c: Seq<CandidateView>, picked: Seq<nat>, k: nat)
    requires
        k <= picked.len() <= 1_000_000,
        growing(picked, 0, c.len()),
        forall|i: int| 0 <= i < c.len() ==> in_cents((#[trigger] c[i]).value, 1_000_000_000_000),
    ensures
        sum_of(c, picked, k) is Some,
        in_cents(sum_of(c, picked, k)->0, (k * 1_000_000_000_000) as int),
        cents(sum_of(c, picked, k)->0) == picked_cents(c, picked, k),
    decreases k,
{
    if k > 0 {
        lemma_sum(c, picked, (k - 1) as nat);
        assert(in_cents(c[picked[k - 1] as int].value, 1_000_000_000_000));
        lemma_added(sum_of(c, picked, (k - 1) as nat)->0, c[picked[k - 1] as int].value);
    }
}

proof fn lemma_replaced(v: Seq<PositionView>, i: int, p: PositionView, n: nat)
    requires
        0 <= i < v.len(),
        n <= v.len(),
        optional(v[i]),
        !optional(p),
        p.total_price is Some,
    ensures
        regular_cents(v.update(i, p), n) == regular_cents(v, n) + if i < n {
            cents(p.total_price->0)
        } else {
            0
        },
    decreases n,
{
    if n > 0 {
        lemma_replaced(v, i, p, (n - 1) as nat);
    }
}

/// Whether a position is another one that is no longer optional and has its total.
pub open spec fn turned_regular(after: PositionView, before: PositionView) -> bool {
    &&& before.price_only || before.provisional
    &&& !after.price_only && !after.provisional
    &&& after.total_price is Some
    &&& after.oz == before.oz
    &&& after.short_text == before.short_text
    &&& after.long_text == before.long_text
    &&& after.quantity == before.quantity
    &&& after.unit == before.unit
    &&& after.unit_price == before.unit_price
    &&& after.page_from == before.page_from
    &&& after.page_to == before.page_to
}

proof fn lemma_restored(v: Seq<PositionView>, c: Seq<CandidateView>, picked: Seq<nat>, k: nat)
    requires
        k <= picked.len(),
        growing(picked, 0, c.len()),
        sound(c, v, v.len()),
    ensures
        ({
            let r = restored(v, c, picked, k);
            &&& r.len() == v.len()
            &&& regular_cents(r, r.len()) == regular_cents(v, v.len()) + picked_cents(c, picked, k)
            &&& forall|i: int|
                0 <= i < v.len() ==> #[trigger] r[i] == v[i] || turned_regular(r[i], v[i])
            &&& forall|i: int|
                0 <= i < v.len() && (k > 0 ==> i > c[picked[k - 1] as int].index)
                    ==> #[trigger] r[i] == v[i]
        }),
    decreases k,
{
    if k > 0 {
        lemma_restored(v, c, picked, (k - 1) as nat);
        let before = restored(v, c, picked, (k - 1) as nat);
        let next = c[picked[k - 1] as int];
        let i = next.index as int;
        if k > 1 {
            assert(picked[k - 2] < picked[k - 1]);
            assert(c[picked[k - 2] as int].index < c[picked[k - 1] as int].index);
        }
        assert(before[i] == v[i]);
        let p = restored(v, c, picked, k)[i];
        lemma_replaced(before, i, p, before.len());
    }
}

/// Holding the optional positions of a subtitle against its stated sum leaves them all as
/// they are, or makes some of them regular so that the totals of all regular positions
/// come to the stated sum, up to two cents. Nothing else of a position changes.
pub proof fn law_stated_sum_reached(
    oz: Seq<char>,
    v: Seq<PositionView>,
    facts: Seq<FactView>,
    totals: Seq<StatedView>,
)
    requires
        priced_in_cents(v),
        v.len() <= 1_000_000,
        stated_for(totals, oz) matches Some(stated) ==> in_cents(
            stated,
            1_000_000_000_000_000_000,
        ),
        checked_subtitle(oz, v, facts, totals) is Some,
    ensures
        ({
            let after = checked_subtitle(oz, v, facts, totals)->0.positions;
            &&& after.len() == v.len()
            &&& forall|i: int|
                0 <= i < v.len() ==> #[trigger] after[i] == v[i] || turned_regular(after[i], v[i])
            &&& after == v || (stated_for(totals, oz) is Some && -2 <= regular_cents(
                after,
                after.len(),
            ) - cents(stated_for(totals, oz)->0) <= 2)
        }),
{
    lemma_candidates(v, v.len());
    let c = candidates_of(v, v.len())->0;
    let after = checked_subtitle(oz, v, facts, totals)->0.positions;
    if after != v {
        let stated = stated_for(totals, oz)->0;
        lemma_regular(v, v.len());
        let base = to_cents(regular_sum(v, v.len())->0);
        lemma_rounded(regular_sum(v, v.len())->0);
        lemma_subtracted(stated, base);
        let required = to_cents(subtracted(stated, base)->0);
        lemma_rounded(subtracted(stated, base)->0);
        assert forall|i: int| 0 <= i < c.len() implies in_cents(
            (#[trigger] c[i]).value,
            1_000_000_000_000,
        ) by {
            let p = v[c[i].index as int];
            assert(would_cost(p) == Some(Some(c[i].value)));
        }
        let picked = (matching(c, required, v, facts)->0)->0;
        if c.len() <= 16 {
            lemma_choice_made(c, required, v, facts, two_to(c.len()));
        } else {
            lemma_singles(c, required, c.len());
        }
        lemma_sum(c, picked, picked.len());
        let sum = sum_of(c, picked, picked.len())->0;
        lemma_rounded(sum);
        lemma_agree(sum, required);
        if c.len() > 16 {
            assert(picked_cents(c, picked, 0) == 0);
            assert(picked.len() == 1);
            lemma_agree(c[picked[0] as int].value, required);
        }
        lemma_restored(v, c, picked, picked.len());
        assert(after == restored(v, c, picked, picked.len()));
    }
}

proof fn lemma_nothing_picked(from: nat, n: nat)
    ensures
        picks(0, from, n) == Seq::<nat>::empty(),
    decreases n - from,
{
    if from < n {
        lemma_nothing_picked(from + 1, n);
    }
}

proof fn lemma_one_picked(i: nat, from: nat, n: nat)
    requires
        from + i < n,
    ensures
        picks(two_to(i), from, n) == seq![(from + i) as nat],
        0 < two_to(i),
    decreases i,
{
    if i == 0 {
        assert(two_to(0) == 1);
        lemma_nothing_picked(from + 1, n);
        assert(picks(1, from, n) =~= seq![from]);
    } else {
        lemma_one_picked((i - 1) as nat, from + 1, n);
        assert(two_to(i) / 2 == two_to((i - 1) as nat));
        assert(two_to(i) % 2 == 0);
    }
}

proof fn lemma_powers_grow(i: nat, n: nat)
    requires
        i < n,
    ensures
        0 < two_to(i) < two_to(n),
    decreases n,
{
    if i + 1 < n {
        lemma_powers_grow(i, (n - 1) as nat);
    } else {
        lemma_powers_positive(i);
    }
}

proof fn lemma_powers_positive(i: nat)
    ensures
        two_to(i) > 0,
    decreases i,
{
    if i > 0 {
        lemma_powers_positive((i - 1) as nat);
    }
}

proof fn lemma_is_candidate(v: Seq<PositionView>, n: nat, j: int)
    requires
        0 <= j < n <= v.len(),
        candidates_of(v, n) is Some,
        optional(v[j]),
        would_cost(v[j]) matches Some(Some(_)),
    ensures
        exists|i: int|
            0 <= i < candidates_of(v, n)->0.len() && (#[trigger] (candidates_of(v, n)->0)[i]).index
                == j,
    decreases n,
{
    let c = candidates_of(v, n)->0;
    if j < n - 1 {
        lemma_is_candidate(v, (n - 1) as nat, j);
        let before = candidates_of(v, (n - 1) as nat)->0;
        let i = choose|i: int| 0 <= i < before.len() && (#[trigger] before[i]).index == j;
        assert(c[i] == before[i]);
    } else {
        assert(c.last().index == j);
        assert(c[c.len() - 1].index == j);
    }
}

/// Where the regular totals of up to sixteen positions miss the stated sum by more than
/// two cents, and one optional position costs what is missing, the stated sum is reached:
/// the positions do not stay as they are.
pub proof fn law_missing_position_found(
    oz: Seq<char>,
    v: Seq<PositionView>,
    facts: Seq<FactView>,
    totals: Seq<StatedView>,
    j: int,
)
    requires
        priced_in_cents(v),
        v.len() <= 16,
        0 <= j < v.len(),
        v[j].price_only || v[j].provisional,
        v[j].total_price is Some,
        stated_for(totals, oz) is Some,
        in_cents(stated_for(totals, oz)->0, 1_000_000_000_000_000_000),
        checked_subtitle(oz, v, facts, totals) is Some,
        ({
            let gap = cents(stated_for(totals, oz)->0) - regular_cents(v, v.len());
            &&& !(-2 <= gap <= 2)
            &&& -2 <= cents(v[j].total_price->0) - gap <= 2
        }),
    ensures
        ({
            let after = checked_subtitle(oz, v, facts, totals)->0.positions;
            -2 <= regular_cents(after, after.len()) - cents(stated_for(totals, oz)->0) <= 2
        }),
{
    law_stated_sum_reached(oz, v, facts, totals);
    lemma_candidates(v, v.len());
    let c = candidates_of(v, v.len())->0;
    let total = v[j].total_price->0;
    lemma_rounded(total);
    assert(would_cost(v[j]) == Some(Some(total)));
    lemma_is_candidate(v, v.len(), j);
    let i = choose|i: int| 0 <= i < c.len() && (#[trigger] c[i]).index == j;
    let stated = stated_for(totals, oz)->0;
    lemma_regular(v, v.len());
    let base = to_cents(regular_sum(v, v.len())->0);
    lemma_rounded(regular_sum(v, v.len())->0);
    lemma_subtracted(stated, base);
    let required = to_cents(subtracted(stated, base)->0);
    lemma_rounded(subtracted(stated, base)->0);
    lemma_agree(required, Dec { mantissa: 0, scale: 0 });
    lemma_one_picked(i as nat, 0, c.len());
    lemma_powers_grow(i as nat, c.len());
    let picked = picks(two_to(i as nat), 0, c.len());
    assert(picked =~= seq![i as nat]);
    let zero = Dec { mantissa: 0, scale: 0 };
    assert(sum_of(c, picked, 0) == Some(zero));
    lemma_added(zero, total);
    assert(sum_of(c, picked, 1) == added(zero, total));
    let sum = sum_of(c, picked, 1)->0;
    lemma_rounded(sum);
    lemma_agree(sum, required);
    assert(makes_up(c, picks(two_to(i as nat), 0, c.len()), required) == Some(true));
    law_best_choice(c, required, v, facts, two_to(c.len()));
    lemma_choice_made(c, required, v, facts, two_to(c.len()));
    let chosen = (best_choice(c, required, v, facts, two_to(c.len()))->0)->0.picked;
    assert forall|k: int| 0 <= k < c.len() implies in_cents(
        (#[trigger] c[k]).value,
        1_000_000_000_000,
    ) by {
        assert(would_cost(v[c[k].index as int]) == Some(Some(c[k].value)));
    }
    lemma_sum(c, chosen, chosen.len());
    let reached = sum_of(c, chosen, chosen.len())->0;
    lemma_rounded(reached);
    lemma_agree(reached, required);
    lemma_restored(v, c, chosen, chosen.len());
}

/// The sum that counts for a heading is the one that is stated for it last.
pub proof fn law_last_sum_counts(totals: Seq<StatedView>, oz: Seq<char>, k: int)
    requires
        0 <= k < totals.len(),
        totals[k].oz == oz,
        forall|i: int| k < i < totals.len() ==> (#[trigger] totals[i]).oz != oz,
    ensures
        stated_for(totals, oz) == Some(totals[k].total),
    decreases totals.len(),
{
    if k < totals.len() - 1 {
        assert(totals.last() == totals[totals.len() - 1]);
        let before = totals.drop_last();
        assert(before[k] == totals[k]);
        assert forall|i: int| k < i < before.len() implies (#[trigger] before[i]).oz != oz by {
            assert(before[i] == totals[i]);
        }
        law_last_sum_counts(before, oz, k);
    }
}

/// No sum counts for a heading for which none is stated.
pub proof fn law_no_sum_stated(totals: Seq<StatedView>, oz: Seq<char>)
    requires
        forall|i: int| 0 <= i < totals.len() ==> (#[trigger] totals[i]).oz != oz,
    ensures
        stated_for(totals, oz) is None,
    decreases totals.len(),
{
    if totals.len() > 0 {
        assert(totals.last() == totals[totals.len() - 1]);
        let before = totals.drop_last();
        assert forall|i: int| 0 <= i < before.len() implies (#[trigger] before[i]).oz != oz by {
            assert(before[i] == totals[i]);
        }
        law_no_sum_stated(before, oz);
    }
}

proof fn lemma_index_after(v: Seq<FactView>, fact: FactView, oz: Seq<char>, other: Seq<char>)
    requires
        fact.oz == oz,
    ensures
        ({
            let n = fact_index(v, oz);
            let m = fact_index(v, other);
            &&& n <= v.len() && m <= v.len()
            &&& n < v.len() ==> v[n as int].oz == oz
            &&& n < v.len() ==> fact_index(v.update(n as int, fact), other) == m
            &&& n == v.len() && (m < v.len() || other == oz) ==> fact_index(v.push(fact), other)
                == m
        }),
    decreases v.len(),
{
    if v.len() > 0 {
        let rest = v.skip(1);
        lemma_index_after(rest, fact, oz, other);
        let n = fact_index(v, oz);
        assert(v.push(fact).skip(1) =~= rest.push(fact));
        if v[0].oz != oz && n < v.len() {
            assert(v.update(n as int, fact).skip(1) =~= rest.update(n - 1, fact));
            assert(v[n as int] == rest[n - 1]);
        } else if n < v.len() {
            assert(v.update(0, fact).skip(1) =~= rest);
        }
    }
}

/// Once a total was seen for a position it stays seen; one more line adds what it shows to
/// its own position and changes nothing for any other.
pub proof fn law_totals_seen(
    v: Seq<FactView>,
    oz: Seq<char>,
    has_total: bool,
    only: bool,
    other: Seq<char>,
)
    ensures
        total_seen(with_fact(v, oz, has_total, only), oz) <==> total_seen(v, oz) || has_total,
        other != oz ==> total_seen(with_fact(v, oz, has_total, only), other) == total_seen(v, other),
{
    let n = fact_index(v, oz);
    let fact = if n < v.len() {
        with_fact(v, oz, has_total, only)[n as int]
    } else {
        with_fact(v, oz, has_total, only).last()
    };
    lemma_index_after(v, fact, oz, oz);
    lemma_index_after(v, fact, oz, other);
    let m = fact_index(v, other);
    if n < v.len() {
        assert(with_fact(v, oz, has_total, only) == v.update(n as int, fact));
        if m == n {
            assert(v[n as int].oz == oz);
            lemma_index_after(v, FactView { oz: other, ..fact }, other, oz);
        }
    } else {
        assert(with_fact(v, oz, has_total, only) == v.push(fact));
        if other != oz && m == v.len() {
            lemma_missing_after(v, fact, other);
        }
    }
}

proof fn lemma_missing_after(v: Seq<FactView>, fact: FactView, other: Seq<char>)
    requires
        fact.oz != other,
        fact_index(v, other) == v.len(),
    ensures
        fact_index(v.push(fact), other) == v.len() + 1,
    decreases v.len(),
{
    if v.len() > 0 {
        assert(v.push(fact).skip(1) =~= v.skip(1).push(fact));
        lemma_missing_after(v.skip(1), fact, other);
    } else {
        assert(v.push(fact).skip(1) =~= Seq::<FactView>::empty());
        assert(fact_index(Seq::<FactView>::empty(), other) == 0);
    }
}

} // verus!
