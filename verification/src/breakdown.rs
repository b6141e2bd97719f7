//! How the ordinal numbers of a bill are built up.

use crate::model::{BillOfQuantities, BoqView, PositionView};
use crate::parser::size;
use crate::text::{digits, number, parts, split, texts};
use crate::tree::{positions, positions_of, ref_views};
use vstd::prelude::*;

verus! {

/// The lengths of the parts of ordinal numbers.
#[derive(Debug, PartialEq, Eq)]
pub struct Breakdown {
    pub level_lengths: Vec<usize>,
    pub item_length: usize,
}

/// What the lengths of the parts of ordinal numbers are.
#[verifier::ext_equal]
pub struct BreakdownView {
    pub level_lengths: Seq<nat>,
    pub item_length: nat,
}

pub open spec fn lengths_view(v: Seq<usize>) -> Seq<nat> {
    Seq::new(v.len(), |i: int| v[i] as nat)
}

impl View for Breakdown {
    type V = BreakdownView;

    open spec fn view(&self) -> BreakdownView {
        BreakdownView {
            level_lengths: lengths_view(self.level_lengths@),
            item_length: self.item_length as nat,
        }
    }
}

/// The longest length of each part, with the first `n` parts of a number taken in.
pub open spec fn with_parts(lengths: Seq<nat>, p: Seq<Seq<char>>, n: nat) -> Seq<nat>
    decreases n,
{
    if n == 0 {
        lengths
    } else {
        let before = with_parts(lengths, p, (n - 1) as nat);
        let len = size(p[n - 1]);
        if n - 1 >= before.len() {
            before.push(len)
        } else if len > before[n - 1] {
            before.update(n - 1, len)
        } else {
            before
        }
    }
}

/// The longest length of each part in the numbers of the first `n` positions.
pub open spec fn longest_parts(v: Seq<PositionView>, n: nat) -> Seq<nat>
    decreases n,
{
    if n == 0 {
        seq![]
    } else {
        let p = split(v[n - 1].oz, '.');
        with_parts(longest_parts(v, (n - 1) as nat), p, p.len())
    }
}

/// The lengths of the parts of the ordinal numbers in a bill; the last part is that of
/// the item.
pub open spec fn breakdown_of(boq: BoqView) -> BreakdownView {
    let all = positions_of(boq.roots);
    let lengths = longest_parts(all, all.len());
    if lengths.len() == 0 {
        BreakdownView { level_lengths: seq![2nat, 2nat, 2nat], item_length: 3 }
    } else {
        BreakdownView { level_lengths: lengths.drop_last(), item_length: lengths.last() }
    }
}

proof fn lemma_with_parts_len(lengths: Seq<nat>, p: Seq<Seq<char>>, n: nat)
    ensures
        with_parts(lengths, p, n).len() >= lengths.len(),
        with_parts(lengths, p, n).len() >= n,
    decreases n,
{
    if n > 0 {
        lemma_with_parts_len(lengths, p, (n - 1) as nat);
    }
}

fn add_parts(lengths: &mut Vec<usize>, oz: &str)
    ensures
        lengths_view(final(lengths)@) == with_parts(
            lengths_view(old(lengths)@),
            split(oz@, '.'),
            split(oz@, '.').len(),
        ),
{
    let p = parts(oz, '.');
    let ghost all = split(oz@, '.');
    let ghost start = lengths_view(lengths@);
    assert(p@.len() == texts(p@).len());
    let mut i: usize = 0;
    while i < p.len()
        invariant
            i <= p@.len() == all.len(),
            texts(p@) == all,
            lengths_view(lengths@) == with_parts(start, all, i as nat),
        decreases p@.len() - i,
    {
        proof {
            lemma_with_parts_len(start, all, i as nat);
        }
        assert(all[i as int] == p@[i as int]@);
        let ghost before = lengths_view(lengths@);
        assert(before.len() == lengths@.len());
        let len: usize = p[i].as_str().as_bytes().len();
        if i >= lengths.len() {
            lengths.push(len);
            assert(lengths_view(lengths@) =~= before.push(len as nat));
        } else if len > lengths[i] {
            lengths.set(i, len);
            assert(lengths_view(lengths@) =~= before.update(i as int, len as nat));
        }
        i = i + 1;
    }
}

pub fn from_boq(boq: &BillOfQuantities) -> (r: Breakdown)
    ensures
        r@ == breakdown_of(boq@),
{
    let all = positions(&boq.roots);
    let ghost views = positions_of(boq@.roots);
    assert(all@.len() == ref_views(all@).len());
    let mut lengths: Vec<usize> = Vec::new();
    assert(lengths_view(lengths@) =~= longest_parts(views, 0));
    let mut i: usize = 0;
    while i < all.len()
        invariant
            i <= all@.len() == views.len(),
            views == ref_views(all@),
            lengths_view(lengths@) == longest_parts(views, i as nat),
        decreases all@.len() - i,
    {
        assert(views[i as int] == all@[i as int]@);
        add_parts(&mut lengths, all[i].oz.as_str());
        i = i + 1;
    }
    let ghost found = lengths_view(lengths@);
    assert(found.len() == lengths@.len());
    match lengths.pop() {
        Some(item_length) => {
            assert(lengths_view(lengths@) =~= found.drop_last());
            Breakdown { level_lengths: lengths, item_length }
        },
        None => {
            let level_lengths: Vec<usize> = vec![2, 2, 2];
            assert(lengths_view(level_lengths@) =~= seq![2nat, 2nat, 2nat]);
            Breakdown { level_lengths, item_length: 3 }
        },
    }
}

/// The name of a level of the hierarchy.
pub open spec fn level_name(index: nat) -> Seq<char> {
    if index == 0 {
        "Bereich"@
    } else if index == 1 {
        "Titel"@
    } else if index == 2 {
        "Untertitel"@
    } else {
        "Gliederungsebene "@ + digits(index + 1)
    }
}

pub fn level_label(index: usize) -> (r: String)
    requires
        index < usize::MAX,
    ensures
        r@ == level_name(index as nat),
{
    match index {
        0 => "Bereich".to_owned(),
        1 => "Titel".to_owned(),
        2 => "Untertitel".to_owned(),
        _ => "Gliederungsebene ".to_owned().concat(number(index as u64 + 1).as_str()),
    }
}

/// The length of part `k` of the number of a position.
pub open spec fn part_size(p: PositionView, k: int) -> nat {
    size(split(p.oz, '.')[k])
}

/// Whether the number of a position has a part `k`.
pub open spec fn has_part(p: PositionView, k: int) -> bool {
    0 <= k < split(p.oz, '.').len()
}

/// Whether part `k` of one of the first `n` numbers has this length.
pub open spec fn is_length_of_a_part(v: Seq<PositionView>, n: nat, k: int, length: nat) -> bool {
    exists|j: int| 0 <= j < n && #[trigger] has_part(v[j], k) && part_size(v[j], k) == length
}

proof fn lemma_with_parts(lengths: Seq<nat>, p: Seq<Seq<char>>, n: nat)
    requires
        n <= p.len(),
    ensures
        ({
            let r = with_parts(lengths, p, n);
            &&& r.len() == (if lengths.len() > n {
                lengths.len()
            } else {
                n
            })
            &&& forall|k: int| 0 <= k < n ==> size(p[k]) <= #[trigger] r[k]
            &&& forall|k: int| 0 <= k < lengths.len() ==> lengths[k] <= #[trigger] r[k]
            &&& forall|k: int|
                0 <= k < r.len() ==> (k < lengths.len() && #[trigger] r[k] == lengths[k]) || (k < n
                    && r[k] == size(p[k]))
        }),
    decreases n,
{
    if n > 0 {
        lemma_with_parts(lengths, p, (n - 1) as nat);
    }
}

proof fn lemma_longest(v: Seq<PositionView>, n: nat)
    requires
        n <= v.len(),
    ensures
        ({
            let r = longest_parts(v, n);
            &&& forall|j: int, k: int|
                0 <= j < n && #[trigger] has_part(v[j], k) ==> k < r.len() && part_size(v[j], k)
                    <= r[k]
            &&& forall|k: int| 0 <= k < r.len() ==> is_length_of_a_part(v, n, k, #[trigger] r[k])
        }),
    decreases n,
{
    if n > 0 {
        lemma_longest(v, (n - 1) as nat);
        let before = longest_parts(v, (n - 1) as nat);
        let p = split(v[n - 1].oz, '.');
        lemma_with_parts(before, p, p.len());
        let r = longest_parts(v, n);
        assert forall|j: int, k: int| 0 <= j < n && #[trigger] has_part(v[j], k) implies k < r.len()
            && part_size(v[j], k) <= r[k] by {
            if j < n - 1 {
                assert(k < before.len() && part_size(v[j], k) <= before[k]);
                assert(before[k] <= r[k]);
            } else {
                assert(size(p[k]) <= r[k]);
            }
        }
        assert forall|k: int| 0 <= k < r.len() implies is_length_of_a_part(
            v,
            n,
            k,
            #[trigger] r[k],
        ) by {
            if k < before.len() && r[k] == before[k] {
                assert(is_length_of_a_part(v, (n - 1) as nat, k, before[k]));
                let j = choose|j: int|
                    0 <= j < n - 1 && #[trigger] has_part(v[j], k) && part_size(v[j], k)
                        == before[k];
                assert(has_part(v[j], k));
            } else {
                assert(has_part(v[n - 1], k));
            }
        }
    }
}

/// The lengths of a bill with positions are those of the longest parts: every part of every
/// number fits, and each length is that of a part. The last one is that of the item. A bill
/// without positions has three levels of two digits and items of three.
pub proof fn law_breakdown_fits(boq: BoqView)
    ensures
        ({
            let all = positions_of(boq.roots);
            let b = breakdown_of(boq);
            let lengths = b.level_lengths.push(b.item_length);
            &&& all.len() > 0 ==> forall|j: int, k: int|
                0 <= j < all.len() && #[trigger] has_part(all[j], k) ==> k < lengths.len()
                    && part_size(all[j], k) <= lengths[k]
            &&& all.len() > 0 ==> forall|k: int|
                0 <= k < lengths.len() ==> is_length_of_a_part(
                    all,
                    all.len(),
                    k,
                    #[trigger] lengths[k],
                )
            &&& all.len() == 0 ==> lengths == seq![2nat, 2nat, 2nat, 3nat]
        }),
{
    let all = positions_of(boq.roots);
    let found = longest_parts(all, all.len());
    lemma_longest(all, all.len());
    let b = breakdown_of(boq);
    let lengths = b.level_lengths.push(b.item_length);
    if all.len() > 0 {
        crate::outline::lemma_split_len(all[0].oz, '.');
        assert(has_part(all[0], 0));
        assert(found.len() > 0);
        assert(lengths =~= found);
    } else {
        assert(lengths =~= seq![2nat, 2nat, 2nat, 3nat]);
    }
}

} // verus!
