//! Reading, checking and writing of GAEB bills of quantities.

use crate::clock::{Moment, MomentView};
use crate::document::Error;
use crate::gaeb90_export::bytes_outcome;
use crate::gaeb_xml::{tree_size, Style};
use crate::gaeb_xml_laws::read_as_bill;
use crate::gaeb2000::{behind, strip_prefix};
use crate::gaeb90::outcome;
use crate::model::{BoqView, PositionView};
use crate::patterns::{with_all_replaced, Pattern, OFFER_OZ};
use crate::text::{
    ascii_lowercase, ascii_lowered, lemma_texts_push, listed, same, texts, trim, trimmed,
};
use crate::tree::{positions, positions_of, ref_views};
use crate::x83::{conflicts_of, is_omitted_position, omitted, refusal, refuse, request_bytes};
use vstd::prelude::*;

pub mod acceptance_laws;
pub mod accounts;
pub mod bill_laws;
pub mod billing;
pub mod breakdown;
pub mod clock;
pub mod conversion_laws;
pub mod decimal;
pub mod desk;
pub mod document;
pub mod events;
pub mod export;
pub mod export_laws;
pub mod filenames;
pub mod four_part_laws;
pub mod four_part_parser;
pub mod gaeb2000;
pub mod gaeb2000_export;
pub mod gaeb2000_laws;
pub mod gaeb2000_reading;
pub mod gaeb90;
pub mod gaeb90_export;
pub mod gaeb90_laws;
pub mod gaeb90_reading;
pub mod gaeb_reader;
pub mod gaeb_xml;
pub mod gaeb_xml_laws;
pub mod gaeb_xml_reading;
pub mod imprint;
pub mod inline_png;
pub mod jobs;
pub mod layout;
pub mod layout_laws;
pub mod layout_reference_cleanup;
pub mod model;
pub mod order;
pub mod outline;
pub mod outline_laws;
pub mod page_laws;
pub mod parser;
pub mod parser_laws;
pub mod patterns;
pub mod pdf_cleanup;
pub mod pdf_reader;
pub mod pictures;
pub mod placeholder_laws;
pub mod placeholder_oz;
pub mod price_cleanup;
pub mod price_laws;
pub mod priced_export;
pub mod print_laws;
pub mod processing;
pub mod provisional_laws;
pub mod provisional_validation;
pub mod provisional_xml;
pub mod reference_cleanup;
pub mod repair_laws;
pub mod request_laws;
pub mod service_laws;
pub mod settings;
pub mod text;
pub mod text_laws;
pub mod title_cleanup;
pub mod total_laws;
pub mod tree;
pub mod web;
pub mod x83;
pub mod xml;

pub use crate::gaeb2000::read_gaeb_2000;
pub use crate::gaeb90::read_gaeb_90;
pub use crate::gaeb_reader::{read_gaeb_xml, GaebDocument, GaebItem, GaebRow};
pub use crate::model::{BillOfQuantities, Node, Position};
pub use crate::inline_png::inject_pdf_pngs;
pub use crate::outline::gaeb_document_to_boq;
pub use crate::parser::parse_text;
pub use crate::pdf_reader::parse_document;
pub use crate::priced_export::{write_x83_priced, write_x84};

verus! {

/// The line that converted documents carry.
pub const CONVERTER_BRANDING: &'static str = "Umgewandelt mit GAEB.hawkvision.de";

/// The ordinal number in a conflict on a missing quantity or unit.
pub open spec fn missing_measure(conflict: Seq<char>) -> Option<Seq<char>> {
    match behind(conflict, "Menge fehlt: "@) {
        Some(oz) => Some(oz),
        None => behind(conflict, "Einheit fehlt: "@),
    }
}

/// Whether a conflict is about a quantity or unit that a dropped position need not have.
pub open spec fn excused(conflict: Seq<char>, dropped: Seq<Seq<char>>) -> bool {
    match missing_measure(conflict) {
        Some(oz) => dropped.contains(trim(oz)),
        None => false,
    }
}

pub fn is_omitted_quantity_or_unit_conflict(omitted: &Vec<String>, conflict: &str) -> (r: bool)
    ensures
        r == excused(conflict@, texts(omitted@)),
{
    let oz = match strip_prefix(conflict, "Menge fehlt: ") {
        Some(oz) => Some(oz),
        None => strip_prefix(conflict, "Einheit fehlt: "),
    };
    match oz {
        Some(oz) => listed(omitted.as_slice(), trimmed(oz.as_str()).as_str()),
        None => false,
    }
}

/// The ordinal numbers of the dropped ones among the first `n` positions.
pub open spec fn dropped_numbers(all: Seq<PositionView>, n: nat) -> Seq<Seq<char>>
    decreases n,
{
    if n == 0 {
        seq![]
    } else if omitted(all[n - 1]) {
        dropped_numbers(all, (n - 1) as nat).push(all[n - 1].oz)
    } else {
        dropped_numbers(all, (n - 1) as nat)
    }
}

/// Those of the first `n` conflicts that are not excused.
pub open spec fn not_excused(conflicts: Seq<Seq<char>>, n: nat, dropped: Seq<Seq<char>>) -> Seq<
    Seq<char>,
>
    decreases n,
{
    if n == 0 {
        seq![]
    } else if excused(conflicts[n - 1], dropped) {
        not_excused(conflicts, (n - 1) as nat, dropped)
    } else {
        not_excused(conflicts, (n - 1) as nat, dropped).push(conflicts[n - 1])
    }
}

/// What really stands in the way of a request: a dropped position needs neither
/// quantity nor unit.
pub open spec fn real_conflicts(boq: BoqView) -> Seq<Seq<char>> {
    let all = positions_of(boq.roots);
    let conflicts = conflicts_of(boq);
    not_excused(conflicts, conflicts.len(), dropped_numbers(all, all.len()))
}

/// What really stands in the way of a request. A position that is marked as dropped
/// needs neither quantity nor unit.
pub fn x83_conflicts(boq: &BillOfQuantities) -> (r: Vec<String>)
    ensures
        texts(r@) == real_conflicts(boq@),
{
    broadcast use lemma_texts_push;
    let found = positions(&boq.roots);
    let ghost all = positions_of(boq@.roots);
    assert(found@.len() == ref_views(found@).len());
    let mut dropped: Vec<String> = Vec::new();
    let mut i: usize = 0;
    assert(texts(dropped@) =~= dropped_numbers(all, 0));
    while i < found.len()
        invariant
            i <= found@.len(),
            all == ref_views(found@),
            texts(dropped@) == dropped_numbers(all, i as nat),
        decreases found@.len() - i,
    {
        broadcast use lemma_texts_push;
        assert(all[i as int] == found@[i as int]@);
        if is_omitted_position(found[i]) {
            dropped.push(found[i].oz.clone());
        }
        i = i + 1;
    }
    let conflicts = x83::x83_conflicts(boq);
    let ghost stated = conflicts_of(boq@);
    assert(conflicts@.len() == texts(conflicts@).len());
    let mut r: Vec<String> = Vec::new();
    let mut i: usize = 0;
    assert(texts(r@) =~= not_excused(stated, 0, texts(dropped@)));
    while i < conflicts.len()
        invariant
            i <= conflicts@.len(),
            stated == texts(conflicts@),
            texts(r@) == not_excused(stated, i as nat, texts(dropped@)),
        decreases conflicts@.len() - i,
    {
        broadcast use lemma_texts_push;
        assert(stated[i as int] == conflicts@[i as int]@);
        if !is_omitted_quantity_or_unit_conflict(&dropped, conflicts[i].as_str()) {
            r.push(conflicts[i].clone());
        }
        i = i + 1;
    }
    r
}

/// What writing a request for an offer comes to.
pub open spec fn request_outcome(boq: BoqView, moment: MomentView, allow_conflicts: bool) -> Result<
    Seq<u8>,
    Seq<char>,
> {
    if !allow_conflicts && real_conflicts(boq).len() > 0 {
        Err(refusal("X83"@, real_conflicts(boq)))
    } else {
        Ok(request_bytes(boq, moment))
    }
}

/// Writes a request for an offer. It is refused where anything but a missing quantity
/// or unit of a dropped position stands in its way, unless conflicts are allowed.
pub fn write_x83(boq: &BillOfQuantities, moment: &Moment, allow_conflicts: bool) -> (r: Result<
    Vec<u8>,
    Error,
>)
    requires
        tree_size(boq@.roots) < u64::MAX,
    ensures
        bytes_outcome(r) == request_outcome(boq@, moment@, allow_conflicts),
        r is Ok ==> read_as_bill(r->Ok_0@, boq@, "83"@, Style::Request),
{
    if !allow_conflicts {
        let conflicts = x83_conflicts(boq);
        assert(texts(conflicts@).len() == conflicts@.len());
        if conflicts.len() > 0 {
            return Err(refuse("X83", &conflicts));
        }
    }
    x83::write_x83(boq, moment, true)
}

/// The text of a supplementary offer with its short numbers made into ordinal numbers
/// of three parts.
pub open spec fn offer_numbered(text: Seq<char>) -> Seq<char> {
    with_all_replaced(OFFER_OZ@, text, "$1.$2.001 NA $1.$2 "@)
}

/// The text of a supplementary offer with its short numbers made into ordinal numbers
/// of three parts.
pub fn normalize_offer_oz(text: &str) -> (r: String)
    ensures
        r@ == offer_numbered(text@),
{
    let pattern = Pattern::new(OFFER_OZ);
    pattern.replaced(text, "$1.$2.001 NA $1.$2 ")
}

/// The exchange format of a file.
#[derive(Clone, Copy, PartialEq, Eq, Structural, Debug)]
pub enum Format {
    Gaeb90,
    Gaeb2000,
    GaebXml,
}

/// The format that the extension of a file name stands for; anything unknown is taken
/// for XML.
pub open spec fn format_of(extension: Seq<char>) -> Format {
    let e = ascii_lowercase(extension);
    if e == "d81"@ || e == "d83"@ || e == "d84"@ {
        Format::Gaeb90
    } else if e == "p81"@ || e == "p83"@ || e == "p84"@ {
        Format::Gaeb2000
    } else {
        Format::GaebXml
    }
}

pub fn gaeb_format(extension: &str) -> (r: Format)
    ensures
        r == format_of(extension@),
{
    let e = ascii_lowered(extension);
    let e = e.as_str();
    if same(e, "d81") || same(e, "d83") || same(e, "d84") {
        Format::Gaeb90
    } else if same(e, "p81") || same(e, "p83") || same(e, "p84") {
        Format::Gaeb2000
    } else {
        Format::GaebXml
    }
}

/// Reads a GAEB file in the format that its extension stands for, given its bytes.
pub fn read_gaeb(source: &str, extension: &str, bytes: &[u8]) -> (r: Result<GaebDocument, Error>)
    ensures
        outcome(r) == (match format_of(extension@) {
            Format::Gaeb90 => gaeb90::gaeb_90(source@, gaeb90::cp850_text(bytes@)),
            Format::Gaeb2000 => gaeb2000::gaeb_2000(
                source@,
                gaeb2000::windows_1252_text(bytes@),
            ),
            Format::GaebXml => gaeb_reader::gaeb_xml(source@, bytes@),
        }),
{
    match gaeb_format(extension) {
        Format::Gaeb90 => read_gaeb_90(source, bytes),
        Format::Gaeb2000 => read_gaeb_2000(source, bytes),
        Format::GaebXml => read_gaeb_xml(source, bytes),
    }
}

} // verus!
