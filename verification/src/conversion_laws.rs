//! What holds of the decisions around a conversion: what stands in the way of a document,
//! what a job makes of a bill, and which names and settings are understood.

use crate::clock::MomentView;
use crate::filenames::{
    converted_name, extension_of, last_of, name_in, named_parts, path_stem, readable_extension,
    safe_name, stem_of,
};
use crate::gaeb90_laws::lemma_join_front;
use crate::inline_png::InlinePngView;
use crate::jobs::priced_count;
use crate::model::{BoqView, PositionView};
use crate::parser::{position_warnings, said_to_be_omitted};
use crate::priced_export::{
    conflicts_with_prices, lacking_prices, lacking_prices_until, priced_outcome, Phase,
};
use crate::parser_laws::{lemma_split_front, lemma_split_whole};
use crate::processing::{completed, job_result};
use crate::text::{ascii_lowercase, join, lines, split, trim};
use crate::tree::positions_of;
use crate::x83::{
    conflicts_of, drops, lacking, lacking_until, lacks, numbered_before, omitted, text_drops,
};
use crate::{format_of, real_conflicts, request_outcome, Format};
use vstd::prelude::*;

verus! {

/// Whether a message about `oz` under this label is among these.
pub open spec fn told(messages: Seq<Seq<char>>, label: Seq<char>, oz: Seq<char>) -> bool {
    messages.contains(label + oz)
}

/// Whether a position with this number has no quantity.
pub open spec fn without_quantity(all: Seq<PositionView>, oz: Seq<char>) -> bool {
    exists|i: int| 0 <= i < all.len() && (#[trigger] all[i]).oz == oz && all[i].quantity is None
}

/// Whether a position with this number has no unit, or only a blank one.
pub open spec fn without_unit(all: Seq<PositionView>, oz: Seq<char>) -> bool {
    exists|i: int|
        0 <= i < all.len() && (#[trigger] all[i]).oz == oz && (all[i].unit is None || trim(
            all[i].unit->0,
        ) == Seq::<char>::empty())
}

/// Whether a position with this number has no text.
pub open spec fn without_text(all: Seq<PositionView>, oz: Seq<char>) -> bool {
    exists|i: int|
        0 <= i < all.len() && (#[trigger] all[i]).oz == oz && trim(all[i].short_text) == Seq::<
            char,
        >::empty() && trim(all[i].long_text) == Seq::<char>::empty()
}

/// Whether two positions have this number.
pub open spec fn given_twice(all: Seq<PositionView>, oz: Seq<char>) -> bool {
    exists|i: int, j: int|
        0 <= i < j < all.len() && (#[trigger] all[i]).oz == oz && (#[trigger] all[j]).oz == oz
}

/// Whether a position with this number needs a unit price that it has not.
pub open spec fn without_unit_price(all: Seq<PositionView>, oz: Seq<char>) -> bool {
    exists|i: int|
        0 <= i < all.len() && (#[trigger] all[i]).oz == oz && all[i].unit_price is None
            && !all[i].price_only && !omitted(all[i])
}

/// Whether a position with this number needs a total that it has not.
pub open spec fn without_total(all: Seq<PositionView>, oz: Seq<char>) -> bool {
    exists|i: int|
        0 <= i < all.len() && (#[trigger] all[i]).oz == oz && all[i].total_price is None
            && !all[i].price_only && !omitted(all[i])
}

proof fn lemma_labels(oz: Seq<char>, other: Seq<char>)
    ensures
        "Doppelte OZ: "@ + oz != "Menge fehlt: "@ + other,
        "Doppelte OZ: "@ + oz != "Einheit fehlt: "@ + other,
        "Doppelte OZ: "@ + oz != "Positionstext fehlt: "@ + other,
        "Menge fehlt: "@ + oz != "Einheit fehlt: "@ + other,
        "Menge fehlt: "@ + oz != "Positionstext fehlt: "@ + other,
        "Einheit fehlt: "@ + oz != "Positionstext fehlt: "@ + other,
        "EP fehlt: "@ + oz != "GP fehlt: "@ + other,
        "Doppelte OZ: "@ + oz != "Unvollständige Preiszeile: "@ + other,
        "Preisabweichung "@ + oz != "Unvollständige Preiszeile: "@ + other,
        "Preisabweichung "@ + oz != "Doppelte OZ: "@ + other,
        "Doppelte OZ: "@ + oz == "Doppelte OZ: "@ + other ==> oz == other,
        "Menge fehlt: "@ + oz == "Menge fehlt: "@ + other ==> oz == other,
        "Einheit fehlt: "@ + oz == "Einheit fehlt: "@ + other ==> oz == other,
        "Positionstext fehlt: "@ + oz == "Positionstext fehlt: "@ + other ==> oz == other,
        "EP fehlt: "@ + oz == "EP fehlt: "@ + other ==> oz == other,
        "GP fehlt: "@ + oz == "GP fehlt: "@ + other ==> oz == other,
{
    reveal_strlit("Doppelte OZ: ");
    reveal_strlit("Menge fehlt: ");
    reveal_strlit("Einheit fehlt: ");
    reveal_strlit("Positionstext fehlt: ");
    reveal_strlit("EP fehlt: ");
    reveal_strlit("GP fehlt: ");
    reveal_strlit("Unvollständige Preiszeile: ");
    reveal_strlit("Preisabweichung ");
    let d = "Doppelte OZ: "@;
    let m = "Menge fehlt: "@;
    let e = "Einheit fehlt: "@;
    let p = "Positionstext fehlt: "@;
    let u = "EP fehlt: "@;
    let g = "GP fehlt: "@;
    let w = "Unvollständige Preiszeile: "@;
    let x = "Preisabweichung "@;
    assert((d + oz)[0] == 'D' && (m + oz)[0] == 'M' && (e + oz)[0] == 'E' && (x + oz)[0] == 'P');
    assert((m + other)[0] == 'M' && (e + other)[0] == 'E' && (p + other)[0] == 'P');
    assert((u + oz)[0] == 'E' && (g + other)[0] == 'G' && (w + other)[0] == 'U');
    assert((d + other)[0] == 'D');
    assert((d + oz).skip(d.len() as int) =~= oz && (d + other).skip(d.len() as int) =~= other);
    assert((m + oz).skip(m.len() as int) =~= oz && (m + other).skip(m.len() as int) =~= other);
    assert((e + oz).skip(e.len() as int) =~= oz && (e + other).skip(e.len() as int) =~= other);
    assert((p + oz).skip(p.len() as int) =~= oz && (p + other).skip(p.len() as int) =~= other);
    assert((u + oz).skip(u.len() as int) =~= oz && (u + other).skip(u.len() as int) =~= other);
    assert((g + oz).skip(g.len() as int) =~= oz && (g + other).skip(g.len() as int) =~= other);
}

/// Whether this is said of one of the first `n` positions.
pub open spec fn said_of_one(all: Seq<PositionView>, n: nat, m: Seq<char>) -> bool {
    exists|i: int|
        0 <= i < n && #[trigger] lacking(all[i], numbered_before(all, i, all[i].oz)).contains(m)
}

proof fn lemma_said(all: Seq<PositionView>, n: nat, m: Seq<char>)
    requires
        n <= all.len(),
    ensures
        lacking_until(all, n).contains(m) <==> said_of_one(all, n, m),
    decreases n,
{
    if n > 0 {
        lemma_said(all, (n - 1) as nat, m);
        let a = lacking_until(all, (n - 1) as nat);
        let b = lacking(all[n - 1], numbered_before(all, n - 1, all[n - 1].oz));
        lemma_in_sum(a, b, m);
        if said_of_one(all, n, m) {
            let i = choose|i: int|
                0 <= i < n && #[trigger] lacking(all[i], numbered_before(all, i, all[i].oz)).contains(
                    m,
                );
            if i < n - 1 {
                assert(said_of_one(all, (n - 1) as nat, m));
            }
        }
        if said_of_one(all, (n - 1) as nat, m) {
            let i = choose|i: int|
                0 <= i < n - 1 && #[trigger] lacking(
                    all[i],
                    numbered_before(all, i, all[i].oz),
                ).contains(m);
            assert(said_of_one(all, n, m));
        }
    }
}

proof fn lemma_pushed<T>(s: Seq<T>, x: T, m: T)
    ensures
        s.push(x).contains(m) <==> s.contains(m) || x == m,
{
    if s.contains(m) {
        let k = choose|k: int| 0 <= k < s.len() && s[k] == m;
        assert(s.push(x)[k] == m);
    }
    if x == m {
        assert(s.push(x)[s.len() as int] == m);
    }
    if s.push(x).contains(m) {
        let k = choose|k: int| 0 <= k < s.push(x).len() && s.push(x)[k] == m;
        if k < s.len() {
            assert(s[k] == m);
        }
    }
}

proof fn lemma_lacking(p: PositionView, repeated: bool, oz: Seq<char>)
    ensures
        told(lacking(p, repeated), "Doppelte OZ: "@, oz) <==> repeated && p.oz == oz,
        told(lacking(p, repeated), "Menge fehlt: "@, oz) <==> p.quantity is None && p.oz == oz,
        told(lacking(p, repeated), "Einheit fehlt: "@, oz) <==> lacks(p.unit) && p.oz == oz,
        told(lacking(p, repeated), "Positionstext fehlt: "@, oz) <==> trim(p.short_text).len() == 0
            && trim(p.long_text).len() == 0 && p.oz == oz,
{
    lemma_labels(oz, p.oz);
    lemma_labels(p.oz, oz);
    let labels = seq!["Doppelte OZ: "@, "Menge fehlt: "@, "Einheit fehlt: "@, "Positionstext fehlt: "@];
    let none = Seq::<Seq<char>>::empty();
    assert forall|k: int| 0 <= k < 4 implies {
        let m = #[trigger] labels[k] + oz;
        lacking(p, repeated).contains(m) <==> {
            ||| repeated && "Doppelte OZ: "@ + p.oz == m
            ||| p.quantity is None && "Menge fehlt: "@ + p.oz == m
            ||| lacks(p.unit) && "Einheit fehlt: "@ + p.oz == m
            ||| trim(p.short_text).len() == 0 && trim(p.long_text).len() == 0
                && "Positionstext fehlt: "@ + p.oz == m
        }
    } by {
        let m = labels[k] + oz;
        let a = if repeated {
            seq!["Doppelte OZ: "@ + p.oz]
        } else {
            none
        };
        let b = if p.quantity is None {
            a.push("Menge fehlt: "@ + p.oz)
        } else {
            a
        };
        let c = if lacks(p.unit) {
            b.push("Einheit fehlt: "@ + p.oz)
        } else {
            b
        };
        lemma_pushed(none, "Doppelte OZ: "@ + p.oz, m);
        assert(none.push("Doppelte OZ: "@ + p.oz) =~= seq!["Doppelte OZ: "@ + p.oz]);
        lemma_pushed(a, "Menge fehlt: "@ + p.oz, m);
        lemma_pushed(b, "Einheit fehlt: "@ + p.oz, m);
        lemma_pushed(c, "Positionstext fehlt: "@ + p.oz, m);
    }
    assert(labels[0] == "Doppelte OZ: "@);
    assert(labels[1] == "Menge fehlt: "@);
    assert(labels[2] == "Einheit fehlt: "@);
    assert(labels[3] == "Positionstext fehlt: "@);
}

/// What is said to stand in the way of a request is what its positions lack: each number
/// that is given twice, each missing quantity, each missing unit and each missing text
/// under the number of the position, and nothing of this kind otherwise.
pub proof fn law_conflicts_told(boq: BoqView, oz: Seq<char>)
    ensures
        ({
            let all = positions_of(boq.roots);
            let said = conflicts_of(boq);
            &&& told(said, "Doppelte OZ: "@, oz) <==> given_twice(all, oz)
            &&& told(said, "Menge fehlt: "@, oz) <==> without_quantity(all, oz)
            &&& told(said, "Einheit fehlt: "@, oz) <==> without_unit(all, oz)
            &&& told(said, "Positionstext fehlt: "@, oz) <==> without_text(all, oz)
        }),
{
    let all = positions_of(boq.roots);
    let n = all.len();
    lemma_said(all, n, "Doppelte OZ: "@ + oz);
    lemma_said(all, n, "Menge fehlt: "@ + oz);
    lemma_said(all, n, "Einheit fehlt: "@ + oz);
    lemma_said(all, n, "Positionstext fehlt: "@ + oz);
    assert forall|i: int| 0 <= i < n implies {
        let here = #[trigger] lacking(all[i], numbered_before(all, i, all[i].oz));
        &&& here.contains("Doppelte OZ: "@ + oz) <==> numbered_before(all, i, all[i].oz)
            && all[i].oz == oz
        &&& here.contains("Menge fehlt: "@ + oz) <==> all[i].quantity is None && all[i].oz == oz
        &&& here.contains("Einheit fehlt: "@ + oz) <==> lacks(all[i].unit) && all[i].oz == oz
        &&& here.contains("Positionstext fehlt: "@ + oz) <==> trim(all[i].short_text).len() == 0
            && trim(all[i].long_text).len() == 0 && all[i].oz == oz
    } by {
        lemma_lacking(all[i], numbered_before(all, i, all[i].oz), oz);
    }
    let empty = Seq::<char>::empty();
    assert forall|i: int| 0 <= i < n implies (trim((#[trigger] all[i]).short_text).len() == 0 <==> trim(
        all[i].short_text,
    ) == empty) && (trim(all[i].long_text).len() == 0 <==> trim(all[i].long_text) == empty) && (
    lacks(all[i].unit) <==> all[i].unit is None || trim(all[i].unit->0) == empty) by {
        if trim(all[i].short_text).len() == 0 {
            assert(trim(all[i].short_text) =~= empty);
        }
        if trim(all[i].long_text).len() == 0 {
            assert(trim(all[i].long_text) =~= empty);
        }
        if all[i].unit is Some && trim(all[i].unit->0).len() == 0 {
            assert(trim(all[i].unit->0) =~= empty);
        }
    }
    if given_twice(all, oz) {
        let (i, j) = choose|i: int, j: int|
            0 <= i < j < n && (#[trigger] all[i]).oz == oz && (#[trigger] all[j]).oz == oz;
        assert(numbered_before(all, j, all[j].oz));
        assert(lacking(all[j], numbered_before(all, j, all[j].oz)).contains("Doppelte OZ: "@ + oz));
    }
    if without_quantity(all, oz) {
        let i = choose|i: int|
            0 <= i < n && (#[trigger] all[i]).oz == oz && all[i].quantity is None;
        assert(lacking(all[i], numbered_before(all, i, all[i].oz)).contains("Menge fehlt: "@ + oz));
    }
    if without_unit(all, oz) {
        let i = choose|i: int|
            0 <= i < n && (#[trigger] all[i]).oz == oz && (all[i].unit is None || trim(
                all[i].unit->0,
            ) == empty);
        assert(lacking(all[i], numbered_before(all, i, all[i].oz)).contains(
            "Einheit fehlt: "@ + oz,
        ));
    }
    if without_text(all, oz) {
        let i = choose|i: int|
            0 <= i < n && (#[trigger] all[i]).oz == oz && trim(all[i].short_text) == empty && trim(
                all[i].long_text,
            ) == empty;
        assert(lacking(all[i], numbered_before(all, i, all[i].oz)).contains(
            "Positionstext fehlt: "@ + oz,
        ));
    }
}

/// Whether this is said of the prices of one of the first `n` positions.
pub open spec fn price_said_of_one(all: Seq<PositionView>, n: nat, m: Seq<char>) -> bool {
    exists|i: int| 0 <= i < n && #[trigger] lacking_prices(all[i]).contains(m)
}

proof fn lemma_price_said(all: Seq<PositionView>, n: nat, m: Seq<char>)
    requires
        n <= all.len(),
    ensures
        lacking_prices_until(all, n).contains(m) <==> price_said_of_one(all, n, m),
    decreases n,
{
    if n > 0 {
        lemma_price_said(all, (n - 1) as nat, m);
        let a = lacking_prices_until(all, (n - 1) as nat);
        let b = lacking_prices(all[n - 1]);
        lemma_in_sum(a, b, m);
        if price_said_of_one(all, n, m) {
            let i = choose|i: int| 0 <= i < n && #[trigger] lacking_prices(all[i]).contains(m);
            if i < n - 1 {
                assert(price_said_of_one(all, (n - 1) as nat, m));
            }
        }
        if price_said_of_one(all, (n - 1) as nat, m) {
            let i = choose|i: int| 0 <= i < n - 1 && #[trigger] lacking_prices(all[i]).contains(m);
            assert(price_said_of_one(all, n, m));
        }
    }
}

proof fn lemma_in_sum<T>(a: Seq<T>, b: Seq<T>, m: T)
    ensures
        (a + b).contains(m) <==> a.contains(m) || b.contains(m),
{
    if a.contains(m) {
        let k = choose|k: int| 0 <= k < a.len() && a[k] == m;
        assert((a + b)[k] == m);
    }
    if b.contains(m) {
        let k = choose|k: int| 0 <= k < b.len() && b[k] == m;
        assert((a + b)[a.len() + k] == m);
    }
    if (a + b).contains(m) {
        let k = choose|k: int| 0 <= k < (a + b).len() && (a + b)[k] == m;
        if k < a.len() {
            assert(a[k] == m);
        } else {
            assert(b[k - a.len()] == m);
        }
    }
}

/// What is said of missing prices is what the positions lack: each unit price and each
/// total that is asked for and not given, under the number of its position, and nothing
/// of this kind otherwise.
pub proof fn law_missing_prices_told(all: Seq<PositionView>, oz: Seq<char>)
    ensures
        told(lacking_prices_until(all, all.len()), "EP fehlt: "@, oz) <==> without_unit_price(
            all,
            oz,
        ),
        told(lacking_prices_until(all, all.len()), "GP fehlt: "@, oz) <==> without_total(all, oz),
{
    let n = all.len();
    lemma_price_said(all, n, "EP fehlt: "@ + oz);
    lemma_price_said(all, n, "GP fehlt: "@ + oz);
    assert forall|i: int| 0 <= i < n implies {
        let here = #[trigger] lacking_prices(all[i]);
        let asked = !omitted(all[i]) && !all[i].price_only && all[i].oz == oz;
        &&& here.contains("EP fehlt: "@ + oz) <==> asked && all[i].unit_price is None
        &&& here.contains("GP fehlt: "@ + oz) <==> asked && all[i].total_price is None
    } by {
        let p = all[i];
        lemma_labels(oz, p.oz);
        lemma_labels(p.oz, oz);
        let none = Seq::<Seq<char>>::empty();
        let unit = "EP fehlt: "@ + p.oz;
        let total = "GP fehlt: "@ + p.oz;
        assert(none.push(unit) =~= seq![unit]);
        lemma_pushed(none, unit, "EP fehlt: "@ + oz);
        lemma_pushed(none, unit, "GP fehlt: "@ + oz);
        lemma_pushed(none, total, "EP fehlt: "@ + oz);
        lemma_pushed(none, total, "GP fehlt: "@ + oz);
        lemma_pushed(seq![unit], total, "EP fehlt: "@ + oz);
        lemma_pushed(seq![unit], total, "GP fehlt: "@ + oz);
    }
    if without_unit_price(all, oz) {
        let i = choose|i: int|
            0 <= i < all.len() && (#[trigger] all[i]).oz == oz && all[i].unit_price is None
                && !all[i].price_only && !omitted(all[i]);
        assert(lacking_prices(all[i]).contains("EP fehlt: "@ + oz));
    }
    if without_total(all, oz) {
        let i = choose|i: int|
            0 <= i < all.len() && (#[trigger] all[i]).oz == oz && all[i].total_price is None
                && !all[i].price_only && !omitted(all[i]);
        assert(lacking_prices(all[i]).contains("GP fehlt: "@ + oz));
    }
}

/// A document with prices is refused where a request would be, and where a price that is
/// asked for is missing. With conflicts allowed it is written in any case, and what is
/// written does not depend on the permission.
pub proof fn law_priced_gate(boq: BoqView, moment: MomentView, phase: Phase)
    ensures
        ({
            let all = positions_of(boq.roots);
            let complete = forall|i: int|
                0 <= i < all.len() ==> {
                    ||| omitted(#[trigger] all[i])
                    ||| all[i].price_only
                    ||| all[i].unit_price is Some && all[i].total_price is Some
                };
            &&& priced_outcome(boq, moment, false, phase) is Ok <==> complete && request_outcome(
                boq,
                moment,
                false,
            ) is Ok
            &&& priced_outcome(boq, moment, true, phase) is Ok
            &&& priced_outcome(boq, moment, false, phase) is Ok ==> priced_outcome(
                boq,
                moment,
                false,
                phase,
            ) == priced_outcome(boq, moment, true, phase)
        }),
        request_outcome(boq, moment, true) is Ok,
        request_outcome(boq, moment, false) is Ok ==> request_outcome(boq, moment, false)
            == request_outcome(boq, moment, true),
{
    let all = positions_of(boq.roots);
    lemma_complete_prices(all, all.len());
    assert(conflicts_with_prices(boq).len() == real_conflicts(boq).len() + lacking_prices_until(
        all,
        all.len(),
    ).len());
}

proof fn lemma_complete_prices(all: Seq<PositionView>, n: nat)
    requires
        n <= all.len(),
    ensures
        lacking_prices_until(all, n).len() == 0 <==> forall|i: int|
            0 <= i < n ==> {
                ||| omitted(#[trigger] all[i])
                ||| all[i].price_only
                ||| all[i].unit_price is Some && all[i].total_price is Some
            },
    decreases n,
{
    if n > 0 {
        lemma_complete_prices(all, (n - 1) as nat);
        let p = all[n - 1];
        assert(lacking_prices(p).len() == 0 <==> omitted(p) || p.price_only || (p.unit_price is Some
            && p.total_price is Some));
    }
}

/// A position is dropped by a line of one of its texts that says so, however it is spaced,
/// and by nothing else.
pub proof fn law_dropped_by_its_text(p: PositionView, n: int, long: bool)
    requires
        0 <= n < lines(
            if long {
                p.long_text
            } else {
                p.short_text
            },
        ).len(),
        trim(
            lines(
                if long {
                    p.long_text
                } else {
                    p.short_text
                },
            )[n],
        ) == "Position entfällt"@,
    ensures
        omitted(p),
{
    let text = if long {
        p.long_text
    } else {
        p.short_text
    };
    assert(drops(lines(text)[n]));
    assert(text_drops(text));
}

/// A position whose price line is incomplete is named in the warnings, unless it is left
/// out; a complete one is not, and a number is called doubled only where it stood before.
pub proof fn law_incomplete_warned(before: Seq<PositionView>, p: PositionView)
    requires
        position_warnings(before, p) is Some,
    ensures
        ({
            let said = position_warnings(before, p)->0;
            let left_out = p.short_text == "Position entfällt"@ || lines(p.long_text).contains(
                "Position entfällt"@,
            );
            &&& told(said, "Unvollständige Preiszeile: "@, p.oz) <==> !left_out && !(p.quantity is
                Some && p.unit_price is Some)
            &&& told(said, "Doppelte OZ: "@, p.oz) <==> exists|i: int|
                0 <= i < before.len() && (#[trigger] before[i]).oz == p.oz
        }),
{
    let said = position_warnings(before, p)->0;
    let m = "Unvollständige Preiszeile: "@ + p.oz;
    let d = "Doppelte OZ: "@ + p.oz;
    lemma_labels(p.oz, p.oz);
    let none = Seq::<Seq<char>>::empty();
    let double = if exists|i: int| 0 <= i < before.len() && (#[trigger] before[i]).oz == p.oz {
        seq![d]
    } else {
        none
    };
    let incomplete = if !said_to_be_omitted(p) && (p.quantity is None || p.unit_price is None) {
        seq![m]
    } else {
        none
    };
    assert(none.push(d) =~= seq![d] && none.push(m) =~= seq![m]);
    lemma_pushed(none, d, m);
    lemma_pushed(none, d, d);
    lemma_pushed(none, m, m);
    lemma_pushed(none, m, d);
    lemma_in_sum(double, incomplete, m);
    lemma_in_sum(double, incomplete, d);
    if said.len() > (double + incomplete).len() {
        let gap = said.last();
        let tail = gap.skip("Preisabweichung "@.len() as int);
        reveal_strlit("Preisabweichung ");
        lemma_gap_text(p, gap, tail);
        lemma_labels(tail, p.oz);
        assert(said =~= (double + incomplete).push(gap));
        lemma_pushed(double + incomplete, gap, m);
        lemma_pushed(double + incomplete, gap, d);
    } else {
        assert(said =~= double + incomplete);
    }
}

proof fn lemma_gap_text(p: PositionView, gap: Seq<char>, tail: Seq<char>)
    requires
        tail == gap.skip("Preisabweichung "@.len() as int),
        exists|rest: Seq<char>| gap == #[trigger] ("Preisabweichung "@ + p.oz + ": "@ + rest),
    ensures
        gap == "Preisabweichung "@ + tail,
{
    let rest = choose|rest: Seq<char>| gap == #[trigger] ("Preisabweichung "@ + p.oz + ": "@ + rest);
    let head = "Preisabweichung "@;
    assert(head + p.oz + ": "@ + rest =~= head + (p.oz + ": "@ + rest));
    assert(head + tail =~= gap);
}

/// What a job makes of a bill: more than fifty positions are too many for the free
/// conversion and for no other; where nothing stands in the way there is no report, and
/// an offer exactly where some position has a price.
pub proof fn law_job_results(
    boq: BoqView,
    moment: MomentView,
    images: Seq<InlinePngView>,
    tier: Seq<char>,
    fallback: bool,
)
    ensures
        ({
            let r = job_result(boq, moment, images, tier, fallback);
            let count = positions_of(boq.roots).len();
            let paid = job_result(boq, moment, images, "pro"@, fallback);
            &&& tier == "free"@ && count > 50 ==> r is Err
            &&& tier != "free"@ || count <= 50 ==> r == paid
            &&& r is Ok && request_outcome(boq, moment, false) is Ok ==> {
                &&& r->Ok_0.report is None
                &&& r->Ok_0.offer is Some <==> priced_count(positions_of(boq.roots)) > 0
                &&& completed(
                    request_outcome(boq, moment, false)->Ok_0,
                    images,
                    boq,
                ) == Ok::<Seq<char>, Seq<char>>(r->Ok_0.request)
                &&& r->Ok_0.offer is Some ==> priced_outcome(boq, moment, false, Phase::X84) is Ok
            }
            &&& request_outcome(boq, moment, false) is Err && !fallback ==> r is Err
        }),
{
    reveal_strlit("free");
    reveal_strlit("pro");
    assert("free"@.len() == 4 && "pro"@.len() == 3);
    assert("pro"@ != "free"@);
}

/// The exchange format goes by the extension, in upper or lower case: `d` stands for GAEB
/// 90, `p` for GAEB 2000, and all else is taken for XML.
pub proof fn law_formats(extension: Seq<char>)
    ensures
        ({
            let e = ascii_lowercase(extension);
            &&& e == seq!['d', '8', '1'] || e == seq!['d', '8', '3'] || e == seq!['d', '8', '4']
                <==> format_of(extension) == Format::Gaeb90
            &&& e == seq!['p', '8', '1'] || e == seq!['p', '8', '3'] || e == seq!['p', '8', '4']
                <==> format_of(extension) == Format::Gaeb2000
        }),
{
    reveal_strlit("d81");
    reveal_strlit("d83");
    reveal_strlit("d84");
    reveal_strlit("p81");
    reveal_strlit("p83");
    reveal_strlit("p84");
    assert("d81"@ =~= seq!['d', '8', '1']);
    assert("d83"@ =~= seq!['d', '8', '3']);
    assert("d84"@ =~= seq!['d', '8', '4']);
    assert("p81"@ =~= seq!['p', '8', '1']);
    assert("p83"@ =~= seq!['p', '8', '3']);
    assert("p84"@ =~= seq!['p', '8', '4']);
    assert(seq!['p', '8', '1'][0] == 'p' && seq!['p', '8', '3'][0] == 'p' && seq!['p', '8', '4'][0]
        == 'p');
    assert(seq!['d', '8', '1'][0] == 'd' && seq!['d', '8', '3'][0] == 'd' && seq!['d', '8', '4'][0]
        == 'd');
}

proof fn lemma_last_point(a: Seq<char>, b: Seq<char>, n: nat)
    requires
        !b.contains('.'),
        n <= b.len(),
    ensures
        last_of(a.push('.') + b, '.', a.len() + 1 + n) == Some(a.len()),
    decreases n,
{
    let s = a.push('.') + b;
    if n > 0 {
        assert(s[a.len() + n as int] == b[n - 1]);
        lemma_last_point(a, b, (n - 1) as nat);
    } else {
        assert(s[a.len() as int] == '.');
    }
}

/// The name of a file is made of its stem, a point and its extension; the extension is
/// what follows the last point.
pub proof fn law_stem_and_extension(stem: Seq<char>, extension: Seq<char>)
    requires
        stem.len() > 0,
        !extension.contains('.'),
    ensures
        stem_of(stem.push('.') + extension) == stem,
        extension_of(stem.push('.') + extension) == Some(extension),
        !stem.contains('.') ==> stem_of(stem) == stem && extension_of(stem) is None,
{
    let name = stem.push('.') + extension;
    lemma_last_point(stem, extension, extension.len());
    assert(name.len() == stem.len() + 1 + extension.len());
    assert(name.take(stem.len() as int) =~= stem);
    assert(name.skip(stem.len() as int + 1) =~= extension);
    if !stem.contains('.') {
        lemma_no_point(stem, stem.len());
    }
}

proof fn lemma_no_point(s: Seq<char>, n: nat)
    requires
        n <= s.len(),
        !s.contains('.'),
    ensures
        last_of(s, '.', n) is None,
    decreases n,
{
    if n > 0 {
        lemma_no_point(s, (n - 1) as nat);
    }
}

proof fn lemma_path_split(p: Seq<Seq<char>>)
    requires
        p.len() > 0,
        forall|i: int| 0 <= i < p.len() ==> !(#[trigger] p[i]).contains('/'),
    ensures
        split(join(p, "/"@), '/') == p,
    decreases p.len(),
{
    reveal_strlit("/");
    assert("/"@ =~= seq!['/']);
    if p.len() == 1 {
        assert(!p[0].contains('/'));
        lemma_split_whole(p[0], '/');
        assert(p =~= seq![p[0]]);
    } else {
        assert(!p[0].contains('/'));
        lemma_join_front(p, "/"@);
        assert forall|i: int| 0 <= i < p.skip(1).len() implies !(#[trigger] p.skip(1)[i]).contains(
            '/',
        ) by {
            assert(p.skip(1)[i] == p[i + 1]);
        }
        lemma_path_split(p.skip(1));
        lemma_split_front(p[0], join(p.skip(1), "/"@), '/');
        assert(p =~= seq![p[0]] + p.skip(1));
    }
}

/// The name of a file is the last part of its path, and a converted file is named after
/// it: with what is safe of its stem, and the new extension.
pub proof fn law_named_after_its_file(
    folders: Seq<Seq<char>>,
    stem: Seq<char>,
    extension: Seq<char>,
    converted: Seq<char>,
)
    requires
        forall|i: int| 0 <= i < folders.len() ==> !(#[trigger] folders[i]).contains('/'),
        stem.len() > 0,
        extension.len() > 0,
        !stem.contains('/'),
        !extension.contains('/'),
        !extension.contains('.'),
    ensures
        ({
            let name = stem.push('.') + extension;
            let path = join(folders.push(name), "/"@);
            &&& name_in(path) == Some(name)
            &&& path_stem(path) == Some(stem)
            &&& converted_name(path, converted) == safe_name(stem).push('.') + converted
        }),
{
    let name = stem.push('.') + extension;
    let p = folders.push(name);
    assert forall|i: int| 0 <= i < p.len() implies !(#[trigger] p[i]).contains('/') by {
        if i < folders.len() {
            assert(p[i] == folders[i]);
        } else if name.contains('/') {
            let k = choose|k: int| 0 <= k < name.len() && name[k] == '/';
            if k < stem.len() {
                assert(stem[k] == '/');
            } else {
                assert(k > stem.len());
                assert(extension[k - stem.len() - 1] == '/');
            }
        }
    }
    lemma_path_split(p);
    reveal_strlit(".");
    reveal_strlit("..");
    assert(name.len() >= 3 && "."@.len() == 1 && ".."@.len() == 2);
    assert(p.last() == name);
    assert(named_parts(p).last() == name);
    law_stem_and_extension(stem, extension);
    assert(safe_name(stem) + "."@ + converted =~= safe_name(stem).push('.') + converted);
}

/// Which files can be read goes by the extension, in upper or lower case.
pub proof fn law_readable_files(extension: Seq<char>)
    ensures
        readable_extension(extension) <==> {
            let e = ascii_lowercase(extension);
            ||| e == seq!['x', 'm', 'l']
            ||| e.len() == 3 && e[1] == '8' && {
                ||| (e[0] == 'd' || e[0] == 'p') && (e[2] == '1' || e[2] == '3')
                ||| e[0] == 'x' && ('0' <= e[2] <= '6' || e[2] == '9')
            }
        },
{
    let e = ascii_lowercase(extension);
    reveal_strlit("d81");
    reveal_strlit("d83");
    reveal_strlit("p81");
    reveal_strlit("p83");
    reveal_strlit("x80");
    reveal_strlit("x81");
    reveal_strlit("x82");
    reveal_strlit("x83");
    reveal_strlit("x84");
    reveal_strlit("x85");
    reveal_strlit("x86");
    reveal_strlit("x89");
    reveal_strlit("xml");
    assert("xml"@ =~= seq!['x', 'm', 'l']);
    if e.len() == 3 {
        assert(e == "d81"@ <==> e =~= "d81"@);
        assert(e == "d83"@ <==> e =~= "d83"@);
        assert(e == "p81"@ <==> e =~= "p81"@);
        assert(e == "p83"@ <==> e =~= "p83"@);
        assert(e == "x80"@ <==> e =~= "x80"@);
        assert(e == "x81"@ <==> e =~= "x81"@);
        assert(e == "x82"@ <==> e =~= "x82"@);
        assert(e == "x83"@ <==> e =~= "x83"@);
        assert(e == "x84"@ <==> e =~= "x84"@);
        assert(e == "x85"@ <==> e =~= "x85"@);
        assert(e == "x86"@ <==> e =~= "x86"@);
        assert(e == "x89"@ <==> e =~= "x89"@);
    }
}

} // verus!
