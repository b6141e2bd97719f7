//! Requests for offers in GAEB DA XML (X83), and what stands in their way.

use crate::clock::{Moment, MomentView};
use crate::document::Error;
use crate::gaeb90_export::bytes_outcome;
use crate::gaeb_xml::{document_events, tree_size, write_document, Style};
use crate::gaeb_xml_laws::read_as_bill;
use crate::model::{BillOfQuantities, BoqView, PositionView};
use crate::text::{
    ascii_lowercase, digits, join, joined, lemma_texts_push, lines, listed, number,
    same_ignoring_case, split_lines, texts, trim, trimmed,
};
use crate::tree::{positions, positions_of, ref_views};
use crate::xml::xml_bytes;
use vstd::prelude::*;

verus! {

/// The namespace of the phase in which offers are asked for.
pub const NS: &'static str = "http://www.gaeb.de/GAEB_DA_XML/DA83/3.3";

/// Whether a text is missing or blank.
pub open spec fn lacks(value: Option<Seq<char>>) -> bool {
    match value {
        Some(s) => trim(s).len() == 0,
        None => true,
    }
}

/// What a position lacks for a request.
pub open spec fn lacking(p: PositionView, repeated: bool) -> Seq<Seq<char>> {
    let a = if repeated {
        seq!["Doppelte OZ: "@ + p.oz]
    } else {
        seq![]
    };
    let b = if p.quantity is None {
        a.push("Menge fehlt: "@ + p.oz)
    } else {
        a
    };
    let c = if lacks(p.unit) {
        b.push("Einheit fehlt: "@ + p.oz)
    } else {
        b
    };
    if trim(p.short_text).len() == 0 && trim(p.long_text).len() == 0 {
        c.push("Positionstext fehlt: "@ + p.oz)
    } else {
        c
    }
}

/// Whether one of the first `n` positions has this ordinal number.
pub open spec fn numbered_before(all: Seq<PositionView>, n: int, oz: Seq<char>) -> bool {
    exists|i: int| 0 <= i < n && (#[trigger] all[i]).oz == oz
}

/// What the first `n` positions lack.
pub open spec fn lacking_until(all: Seq<PositionView>, n: nat) -> Seq<Seq<char>>
    decreases n,
{
    if n == 0 {
        seq![]
    } else {
        lacking_until(all, (n - 1) as nat) + lacking(
            all[n - 1],
            numbered_before(all, n - 1, all[n - 1].oz),
        )
    }
}

/// All that stands in the way of a request.
pub open spec fn conflicts_of(boq: BoqView) -> Seq<Seq<char>> {
    let all = positions_of(boq.roots);
    lacking_until(all, all.len())
}

fn labelled(label: &str, oz: &str) -> (r: String)
    ensures
        r@ == label@ + oz@,
{
    label.to_owned().concat(oz)
}

fn missing(value: &Option<String>) -> (r: bool)
    ensures
        r == lacks(crate::model::opt_text(*value)),
{
    match value {
        Some(s) => trimmed(s.as_str()).as_str().is_empty(),
        None => true,
    }
}

/// Whatever a bill lacks for a request: doubled ordinal numbers, missing quantities,
/// units and texts.
pub fn x83_conflicts(boq: &BillOfQuantities) -> (r: Vec<String>)
    ensures
        texts(r@) == conflicts_of(boq@),
{
    let found = positions(&boq.roots);
    let ghost all = positions_of(boq@.roots);
    assert(found@.len() == ref_views(found@).len());
    let mut seen: Vec<String> = Vec::new();
    let mut r: Vec<String> = Vec::new();
    let mut i: usize = 0;
    assert(texts(r@) =~= lacking_until(all, 0));
    while i < found.len()
        invariant
            i <= found@.len(),
            all == ref_views(found@),
            seen@.len() == i,
            forall|j: int| 0 <= j < i ==> #[trigger] texts(seen@)[j] == all[j].oz,
            texts(r@) == lacking_until(all, i as nat),
        decreases found@.len() - i,
    {
        broadcast use lemma_texts_push;
        let p = found[i];
        assert(all[i as int] == p@);
        let ghost before = texts(r@);
        let repeated = listed(seen.as_slice(), p.oz.as_str());
        assert(repeated == numbered_before(all, i as int, p.oz@)) by {
            if repeated {
                let j = choose|j: int| 0 <= j < texts(seen@).len() && texts(seen@)[j] == p.oz@;
                assert(all[j].oz == p.oz@);
            }
            if numbered_before(all, i as int, p.oz@) {
                let j = choose|j: int| 0 <= j < i && (#[trigger] all[j]).oz == p.oz@;
                assert(texts(seen@)[j] == p.oz@);
            }
        }
        if repeated {
            r.push(labelled("Doppelte OZ: ", p.oz.as_str()));
        }
        if p.quantity.is_none() {
            r.push(labelled("Menge fehlt: ", p.oz.as_str()));
        }
        if missing(&p.unit) {
            r.push(labelled("Einheit fehlt: ", p.oz.as_str()));
        }
        if trimmed(p.short_text.as_str()).as_str().is_empty() && trimmed(
            p.long_text.as_str(),
        ).as_str().is_empty() {
            r.push(labelled("Positionstext fehlt: ", p.oz.as_str()));
        }
        assert(texts(r@) =~= before + lacking(p@, repeated));
        let ghost marks = seen@;
        seen.push(p.oz.clone());
        assert forall|j: int| 0 <= j < i + 1 implies #[trigger] texts(seen@)[j] == all[j].oz by {
            if j < i {
                assert(texts(marks)[j] == all[j].oz);
            }
        }
        i = i + 1;
    }
    r
}

/// Whether a line says that the position is dropped.
pub open spec fn drops(line: Seq<char>) -> bool {
    ascii_lowercase(trim(line)) == ascii_lowercase("Position entfällt"@)
}

/// Whether some line of a text says that the position is dropped.
pub open spec fn text_drops(s: Seq<char>) -> bool {
    exists|i: int| 0 <= i < lines(s).len() && drops(#[trigger] lines(s)[i])
}

/// Whether a position is marked as dropped in one of its texts.
pub open spec fn omitted(p: PositionView) -> bool {
    text_drops(p.short_text) || text_drops(p.long_text)
}

pub fn says_dropped(s: &str) -> (r: bool)
    ensures
        r == text_drops(s@),
{
    let found = split_lines(s);
    let ghost all = lines(s@);
    assert(found@.len() == texts(found@).len());
    let mut i: usize = 0;
    while i < found.len()
        invariant
            i <= found@.len(),
            all == lines(s@),
            found@.len() == all.len(),
            all == texts(found@),
            forall|j: int| 0 <= j < i ==> !drops(#[trigger] all[j]),
        decreases found@.len() - i,
    {
        assert(all[i as int] == found@[i as int]@);
        if same_ignoring_case(trimmed(found[i].as_str()).as_str(), "Position entfällt") {
            assert(drops(all[i as int]));
            return true;
        }
        i = i + 1;
    }
    false
}

pub fn is_omitted_position(p: &crate::model::Position) -> (r: bool)
    ensures
        r == omitted(p@),
{
    says_dropped(p.short_text.as_str()) || says_dropped(p.long_text.as_str())
}

/// The message with which an export is refused.
pub open spec fn refusal(label: Seq<char>, conflicts: Seq<Seq<char>>) -> Seq<char> {
    label + "-Export gesperrt: "@ + digits(conflicts.len())
        + " Konflikt(e) müssen manuell geprüft werden:\n- "@ + join(conflicts, "\n- "@)
        + "\nDanach erneut mit --allow-conflicts exportieren."@
}

pub fn refuse(label: &str, conflicts: &Vec<String>) -> (r: Error)
    ensures
        r@ == refusal(label@, texts(conflicts@)),
{
    let n = number(conflicts.len() as u64);
    let list = joined(conflicts.as_slice(), "\n- ");
    assert(texts(conflicts@).len() == conflicts@.len());
    let message = label.to_owned().concat("-Export gesperrt: ").concat(n.as_str()).concat(
        " Konflikt(e) müssen manuell geprüft werden:\n- ",
    ).concat(list.as_str()).concat("\nDanach erneut mit --allow-conflicts exportieren.");
    Error { message }
}

/// The bytes of a request.
pub open spec fn request_bytes(boq: BoqView, moment: MomentView) -> Seq<u8> {
    xml_bytes(document_events(boq, moment, NS@, "83"@, Style::Request))
}

/// Writes a request for an offer. Where something stands in its way it is refused,
/// unless conflicts are allowed after a manual review.
pub fn write_x83(boq: &BillOfQuantities, moment: &Moment, allow_conflicts: bool) -> (r: Result<
    Vec<u8>,
    Error,
>)
    requires
        tree_size(boq@.roots) < u64::MAX,
    ensures
        bytes_outcome(r) == (if !allow_conflicts && conflicts_of(boq@).len() > 0 {
            Err(refusal("X83"@, conflicts_of(boq@)))
        } else {
            Ok(request_bytes(boq@, moment@))
        }),
        r is Ok ==> read_as_bill(r->Ok_0@, boq@, "83"@, Style::Request),
{
    if !allow_conflicts {
        let conflicts = x83_conflicts(boq);
        assert(texts(conflicts@).len() == conflicts@.len());
        if conflicts.len() > 0 {
            return Err(refuse("X83", &conflicts));
        }
    }
    Ok(write_document(boq, moment, NS, "83", Style::Request))
}

} // verus!
