//! Bills with prices in GAEB DA XML (X84, and X83 with prices).

use crate::clock::{Moment, MomentView};
use crate::document::Error;
use crate::gaeb90_export::bytes_outcome;
use crate::gaeb_xml::{document_events, tree_size, write_document, Style};
use crate::gaeb_xml_laws::read_as_bill;
use crate::model::{BillOfQuantities, BoqView, PositionView};
use crate::text::{lemma_texts_push, texts};
use crate::tree::{positions, positions_of, ref_views};
use crate::x83::{is_omitted_position, omitted, refusal, refuse};
use crate::xml::xml_bytes;
use crate::{real_conflicts, x83_conflicts};
use vstd::prelude::*;

verus! {

/// The exchange phase of a document with prices.
#[derive(Clone, Copy, PartialEq, Eq, Structural)]
pub enum Phase {
    X83,
    X84,
}

impl Phase {
    pub open spec fn number(self) -> Seq<char> {
        match self {
            Phase::X83 => "83"@,
            Phase::X84 => "84"@,
        }
    }

    pub open spec fn space(self) -> Seq<char> {
        match self {
            Phase::X83 => "http://www.gaeb.de/GAEB_DA_XML/DA83/3.3"@,
            Phase::X84 => "http://www.gaeb.de/GAEB_DA_XML/DA84/3.3"@,
        }
    }

    pub open spec fn title(self) -> Seq<char> {
        match self {
            Phase::X83 => "X83 mit Preisen"@,
            Phase::X84 => "X84"@,
        }
    }

    /// How the items of the phase are shown: an offer repeats no descriptions.
    pub open spec fn style(self) -> Style {
        match self {
            Phase::X83 => Style::Priced,
            Phase::X84 => Style::Offer,
        }
    }

    fn item_style(self) -> (r: Style)
        ensures
            r == self.style(),
    {
        match self {
            Phase::X83 => Style::Priced,
            Phase::X84 => Style::Offer,
        }
    }

    pub fn dp(self) -> (r: &'static str)
        ensures
            r@ == self.number(),
    {
        match self {
            Phase::X83 => "83",
            Phase::X84 => "84",
        }
    }

    pub fn namespace(self) -> (r: &'static str)
        ensures
            r@ == self.space(),
    {
        match self {
            Phase::X83 => "http://www.gaeb.de/GAEB_DA_XML/DA83/3.3",
            Phase::X84 => "http://www.gaeb.de/GAEB_DA_XML/DA84/3.3",
        }
    }

    pub fn label(self) -> (r: &'static str)
        ensures
            r@ == self.title(),
    {
        match self {
            Phase::X83 => "X83 mit Preisen",
            Phase::X84 => "X84",
        }
    }
}

/// The prices that a position lacks. A dropped position, and one that only has a unit
/// price to show, lacks none.
pub open spec fn lacking_prices(p: PositionView) -> Seq<Seq<char>> {
    if omitted(p) || p.price_only {
        seq![]
    } else {
        let a = if p.unit_price is None {
            seq!["EP fehlt: "@ + p.oz]
        } else {
            seq![]
        };
        if p.total_price is None {
            a.push("GP fehlt: "@ + p.oz)
        } else {
            a
        }
    }
}

/// The prices that the first `n` positions lack.
pub open spec fn lacking_prices_until(all: Seq<PositionView>, n: nat) -> Seq<Seq<char>>
    decreases n,
{
    if n == 0 {
        seq![]
    } else {
        lacking_prices_until(all, (n - 1) as nat) + lacking_prices(all[n - 1])
    }
}

/// All that stands in the way of a document with prices.
pub open spec fn conflicts_with_prices(boq: BoqView) -> Seq<Seq<char>> {
    let all = positions_of(boq.roots);
    real_conflicts(boq) + lacking_prices_until(all, all.len())
}

pub fn priced_conflicts(boq: &BillOfQuantities) -> (r: Vec<String>)
    ensures
        texts(r@) == conflicts_with_prices(boq@),
{
    let mut r = x83_conflicts(boq);
    let ghost first = texts(r@);
    let found = positions(&boq.roots);
    let ghost all = positions_of(boq@.roots);
    assert(found@.len() == ref_views(found@).len());
    let mut i: usize = 0;
    assert(first + lacking_prices_until(all, 0) =~= first);
    while i < found.len()
        invariant
            i <= found@.len(),
            all == ref_views(found@),
            texts(r@) == first + lacking_prices_until(all, i as nat),
        decreases found@.len() - i,
    {
        broadcast use lemma_texts_push;
        let p = found[i];
        assert(all[i as int] == p@);
        let ghost before = texts(r@);
        if !is_omitted_position(p) && !p.price_only {
            if p.unit_price.is_none() {
                r.push("EP fehlt: ".to_owned().concat(p.oz.as_str()));
            }
            if p.total_price.is_none() {
                r.push("GP fehlt: ".to_owned().concat(p.oz.as_str()));
            }
        }
        assert(texts(r@) =~= before + lacking_prices(p@));
        i = i + 1;
        assert(texts(r@) =~= first + lacking_prices_until(all, i as nat));
    }
    r
}

/// The bytes of a document with prices.
pub open spec fn priced_bytes(boq: BoqView, moment: MomentView, phase: Phase) -> Seq<u8> {
    xml_bytes(document_events(boq, moment, phase.space(), phase.number(), phase.style()))
}

/// What writing a document with prices comes to.
pub open spec fn priced_outcome(
    boq: BoqView,
    moment: MomentView,
    allow_conflicts: bool,
    phase: Phase,
) -> Result<Seq<u8>, Seq<char>> {
    let conflicts = conflicts_with_prices(boq);
    if !allow_conflicts && conflicts.len() > 0 {
        Err(refusal(phase.title(), conflicts))
    } else {
        Ok(priced_bytes(boq, moment, phase))
    }
}

pub fn write_priced(
    boq: &BillOfQuantities,
    moment: &Moment,
    allow_conflicts: bool,
    phase: Phase,
) -> (r: Result<Vec<u8>, Error>)
    requires
        tree_size(boq@.roots) < u64::MAX,
    ensures
        bytes_outcome(r) == priced_outcome(boq@, moment@, allow_conflicts, phase),
        r is Ok ==> read_as_bill(r->Ok_0@, boq@, phase.number(), phase.style()),
{
    if !allow_conflicts {
        let conflicts = priced_conflicts(boq);
        assert(texts(conflicts@).len() == conflicts@.len());
        if conflicts.len() > 0 {
            return Err(refuse(phase.label(), &conflicts));
        }
    }
    Ok(write_document(boq, moment, phase.namespace(), phase.dp(), phase.item_style()))
}

/// Writes an offer (X84): of each position the number and the prices.
pub fn write_x84(boq: &BillOfQuantities, moment: &Moment, allow_conflicts: bool) -> (r: Result<
    Vec<u8>,
    Error,
>)
    requires
        tree_size(boq@.roots) < u64::MAX,
    ensures
        bytes_outcome(r) == priced_outcome(boq@, moment@, allow_conflicts, Phase::X84),
        r is Ok ==> read_as_bill(r->Ok_0@, boq@, Phase::X84.number(), Style::Offer),
{
    write_priced(boq, moment, allow_conflicts, Phase::X84)
}

/// Writes an X83 with unit prices and totals, which some systems take although the
/// phase provides for none. The regular answer to a request is an X84.
pub fn write_x83_priced(boq: &BillOfQuantities, moment: &Moment, allow_conflicts: bool) -> (r: Result<
    Vec<u8>,
    Error,
>)
    requires
        tree_size(boq@.roots) < u64::MAX,
    ensures
        bytes_outcome(r) == priced_outcome(boq@, moment@, allow_conflicts, Phase::X83),
        r is Ok ==> read_as_bill(r->Ok_0@, boq@, Phase::X83.number(), Style::Priced),
{
    write_priced(boq, moment, allow_conflicts, Phase::X83)
}

} // verus!
