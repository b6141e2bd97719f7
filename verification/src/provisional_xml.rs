//! Marks for optional positions in GAEB DA XML.

use crate::document::Error;
use crate::gaeb2000::{byte_slice, bytes_between};
use crate::inline_png::injection_outcome;
use crate::model::{BillOfQuantities, BoqView, PositionView};
use crate::parser::size;
use crate::patterns::{all_groups, groups, tag_matches, Found, FoundView, Pattern, ITEM_START};
use crate::provisional_laws::{law_marked_once, law_no_marks_no_change};
use crate::provisional_validation::optional;
use crate::text::{chars, contains, find, has, next_match, slice};
use crate::tree::{positions_as_written, ref_views, written_positions};
use vstd::prelude::*;

verus! {

/// The marks of an optional position without a total.
pub open spec fn marks() -> Seq<char> {
    "<Provis>WithoutTotal</Provis><LumpSumItem>Yes</LumpSumItem>"@
}

/// Which items are optional, in the order in which they are written.
pub open spec fn flags_of(boq: BoqView) -> Seq<bool> {
    let all = written_positions(boq.roots);
    Seq::new(all.len(), |i: int| optional(all[i]))
}

pub fn flattened_provisional_flags(boq: &BillOfQuantities) -> (r: Vec<bool>)
    ensures
        r@ == flags_of(boq@),
{
    let all = positions_as_written(&boq.roots);
    let ghost views = written_positions(boq@.roots);
    assert(all@.len() == ref_views(all@).len());
    let mut r: Vec<bool> = Vec::new();
    let mut i: usize = 0;
    while i < all.len()
        invariant
            i <= all@.len() == views.len(),
            views == ref_views(all@),
            r@.len() == i,
            forall|j: int| 0 <= j < i ==> #[trigger] r@[j] == optional(views[j]),
        decreases all@.len() - i,
    {
        assert(views[i as int] == all@[i as int]@);
        r.push(all[i].price_only || all[i].provisional);
        i = i + 1;
    }
    assert(r@ =~= flags_of(boq@));
    r
}

/// Where a match ends, in bytes.
pub open spec fn match_end(g: Seq<Option<FoundView>>, default: nat) -> nat {
    if g.len() > 0 && g[0] is Some {
        g[0]->0.end
    } else {
        default
    }
}

/// What an item holds whose start tag ends at this byte.
pub open spec fn item_body(source: Seq<char>, end: nat) -> Seq<char> {
    let tail = byte_slice(source, end as int, size(source) as int);
    match find(tail, "</Item>"@) {
        Some(n) => tail.take(n as int),
        None => tail,
    }
}

/// A document as far as it has been marked.
#[verifier::ext_equal]
pub struct Marking {
    pub output: Seq<char>,
    pub cursor: nat,
    pub changed: nat,
}

/// The document up to the start tag of its `n`-th item, with marks behind the tags of the
/// optional items that have none yet.
pub open spec fn marked_until(
    source: Seq<char>,
    found: Seq<Seq<Option<FoundView>>>,
    flags: Seq<bool>,
    n: nat,
) -> Marking
    decreases n,
{
    if n == 0 {
        Marking { output: seq![], cursor: 0, changed: 0 }
    } else {
        let before = marked_until(source, found, flags, (n - 1) as nat);
        let end = match_end(found[n - 1], before.cursor);
        let output = before.output + byte_slice(source, before.cursor as int, end as int);
        if n - 1 < flags.len() && flags[n - 1] && !contains(item_body(source, end), "<Provis>"@) {
            Marking { output: output + marks(), cursor: end, changed: before.changed + 1 }
        } else {
            Marking { output, cursor: end, changed: before.changed }
        }
    }
}

/// A document with marks in the optional items, and how many it got, given where the start
/// tags of its items stand.
pub open spec fn marked(
    source: Seq<char>,
    found: Seq<Seq<Option<FoundView>>>,
    flags: Seq<bool>,
) -> (Seq<char>, nat) {
    let last = marked_until(source, found, flags, found.len());
    (
        last.output + byte_slice(source, last.cursor as int, size(source) as int),
        last.changed,
    )
}

/// A document with marks in the optional items, and how many it got.
pub open spec fn with_marks(source: Seq<char>, flags: Seq<bool>) -> (Seq<char>, nat) {
    marked(source, tag_matches(source), flags)
}

fn is_unmarked(source: &str, end: usize) -> (r: bool)
    ensures
        r == !contains(item_body(source@, end as nat), "<Provis>"@),
{
    let tail = bytes_between(source, end, source.as_bytes().len());
    let v = chars(tail.as_str());
    let closing = chars("</Item>");
    let body = match next_match(&v, &closing, 0) {
        Some(n) => {
            let body = slice(&v, 0, n);
            assert(body@ =~= tail@.take(n as int));
            body
        },
        None => tail,
    };
    let marked = has(body.as_str(), "<Provis>");
    !marked
}

/// A document with marks in its optional items, and how many it got, given where the start
/// tags of its items stand.
pub fn mark_items(source: &str, found: &Vec<Vec<Option<Found>>>, flags: &Vec<bool>) -> (r: (
    String,
    usize,
))
    ensures
        (r.0@, r.1 as nat) == marked(source@, all_groups(found@), flags@),
{
    let ghost all = all_groups(found@);
    let mut output = String::new();
    let mut cursor: usize = 0;
    let mut changed: usize = 0;
    let mut i: usize = 0;
    while i < found.len()
        invariant
            i <= found@.len(),
            changed <= i,
            all == all_groups(found@),
            (Marking { output: output@, cursor: cursor as nat, changed: changed as nat })
                == marked_until(source@, all, flags@, i as nat),
        decreases found@.len() - i,
    {
        assert(all[i as int] == groups(found@[i as int]@));
        let ghost g = groups(found@[i as int]@);
        let end: usize = if found[i].len() > 0 {
            assert(g[0] == (match found@[i as int]@[0] {
                Some(f) => Some(f@),
                None => None,
            }));
            match &found[i][0] {
                Some(f) => f.end,
                None => cursor,
            }
        } else {
            cursor
        };
        assert(end == match_end(g, cursor as nat));
        output.append(bytes_between(source, cursor, end).as_str());
        cursor = end;
        if i < flags.len() && flags[i] && is_unmarked(source, end) {
            output.append("<Provis>WithoutTotal</Provis><LumpSumItem>Yes</LumpSumItem>");
            changed = changed + 1;
        }
        i = i + 1;
    }
    output.append(bytes_between(source, cursor, source.as_bytes().len()).as_str());
    (output, changed)
}

/// A document with marks in its optional items, and how many it got. A document that gets
/// none stays as it is, and one that has been marked gets no more.
pub fn apply_to_xml(source: &str, boq: &BillOfQuantities) -> (r: Result<(String, usize), Error>)
    ensures
        injection_outcome(r) == Ok::<(Seq<char>, nat), Seq<char>>(
            with_marks(source@, flags_of(boq@)),
        ),
        r is Ok && r->Ok_0.1 == 0 ==> r->Ok_0.0@ == source@,
        r is Ok ==> with_marks(r->Ok_0.0@, flags_of(boq@)) == (r->Ok_0.0@, 0nat),
{
    let flags = flattened_provisional_flags(boq);
    let found = Pattern::new(ITEM_START).all(source);
    let r = mark_items(source, &found, &flags);
    proof {
        law_no_marks_no_change(source@, flags@);
        law_marked_once(source@, flags@);
    }
    Ok(r)
}

/// How many of the first `n` items are optional and have no mark yet.
pub open spec fn to_be_marked(
    source: Seq<char>,
    found: Seq<Seq<Option<FoundView>>>,
    all: Seq<PositionView>,
    n: nat,
) -> nat
    decreases n,
{
    if n == 0 {
        0
    } else {
        let end = match_end(found[n - 1], 0);
        to_be_marked(source, found, all, (n - 1) as nat) + (if n - 1 < all.len() && (
        all[n - 1].provisional || all[n - 1].price_only) && !contains(
            item_body(source, end),
            "<Provis>"@,
        ) {
            1nat
        } else {
            0nat
        })
    }
}

/// As many marks are put into a document as there are items of optional positions without
/// one: items stand in the order of the positions. Each mark stands right behind the start
/// tag of its item, and says that the item has no total in the sum and is a lump sum item.
pub proof fn law_optional_items_marked(
    source: Seq<char>,
    found: Seq<Seq<Option<FoundView>>>,
    boq: BoqView,
    n: nat,
)
    requires
        n <= found.len(),
        forall|k: int|
            0 <= k < found.len() ==> (#[trigger] found[k]).len() > 0 && found[k][0] is Some,
    ensures
        ({
            let all = written_positions(boq.roots);
            let here = marked_until(source, found, flags_of(boq), n);
            &&& here.changed == to_be_marked(source, found, all, n)
            &&& n > 0 ==> here.cursor == found[n - 1][0]->0.end
            &&& n > 0 && n <= all.len() && (all[n - 1].provisional || all[n - 1].price_only)
                && !contains(item_body(source, found[n - 1][0]->0.end), "<Provis>"@)
                ==> "<Provis>WithoutTotal</Provis><LumpSumItem>Yes</LumpSumItem>"@.is_suffix_of(
                here.output,
            )
            &&& n > 0 && n <= all.len() && !all[n - 1].provisional && !all[n - 1].price_only ==> {
                let before = marked_until(source, found, flags_of(boq), (n - 1) as nat);
                here.output == before.output + byte_slice(
                    source,
                    before.cursor as int,
                    here.cursor as int,
                )
            }
        }),
    decreases n,
{
    if n > 0 {
        law_optional_items_marked(source, found, boq, (n - 1) as nat);
        assert(found[n - 1].len() > 0 && found[n - 1][0] is Some);
        let before = marked_until(source, found, flags_of(boq), (n - 1) as nat);
        let here = marked_until(source, found, flags_of(boq), n);
        let front = before.output + byte_slice(source, before.cursor as int, here.cursor as int);
        let m = marks();
        assert((front + m).subrange(front.len() as int, (front + m).len() as int) =~= m);
    }
}

} // verus!
