//! From the text and page layout of a document to its bill of quantities.

use crate::document::Error;
use crate::model::{BillOfQuantities, BoqView};
use crate::normalize_offer_oz;
use crate::offer_numbered;
use crate::parser::{bill_of_text, boq_outcome, overflow_message, parse_text};
use crate::pdf_cleanup::{layout_view, postprocess_pdf, postprocessed};
use crate::placeholder_oz::{recover_placeholder_positions_from_text, with_placeholders};
use crate::price_cleanup::{validate_and_repair_prices, with_repaired_prices};
use crate::provisional_validation::{validate_provisional_totals, with_checked_totals};
use crate::reference_cleanup::{repair_split_references, with_references_joined};
use crate::text::{chars, is_space, lemma_texts_push, space, texts};
use crate::title_cleanup::{clean_titles, with_clean_titles};
use vstd::prelude::*;

verus! {

/// How many characters of a text are more than white space.
pub open spec fn written_chars(s: Seq<char>) -> nat
    decreases s.len(),
{
    if s.len() == 0 {
        0
    } else {
        written_chars(s.drop_last()) + if is_space(s.last()) {
            0nat
        } else {
            1nat
        }
    }
}

/// Whether the text of a document is too short to be that of its pages, so that they have
/// to be read from pictures.
pub fn needs_recognition(text: &str) -> (r: bool)
    ensures
        r == (written_chars(text@) < 80),
{
    let v = chars(text);
    let mut count: usize = 0;
    let mut i: usize = 0;
    assert(text@.take(0) =~= seq![]);
    while i < v.len()
        invariant
            v@ == text@,
            i <= v@.len(),
            count <= i,
            count == written_chars(text@.take(i as int)),
        decreases v@.len() - i,
    {
        assert(text@.take(i + 1).drop_last() =~= text@.take(i as int));
        assert(text@.take(i + 1).last() == v@[i as int]);
        if !space(v[i]) {
            count = count + 1;
        }
        i = i + 1;
    }
    assert(text@.take(v@.len() as int) =~= text@);
    count < 80
}

/// The texts of pages with a form feed behind each.
pub open spec fn paged(pages: Seq<Seq<char>>) -> Seq<char>
    decreases pages.len(),
{
    if pages.len() == 0 {
        seq![]
    } else {
        (paged(pages.drop_last()) + pages.last()).push('\u{c}')
    }
}

/// The text of pages that were read from pictures.
pub fn recognized_text(pages: &Vec<String>) -> (r: String)
    ensures
        r@ == offer_numbered(paged(texts(pages@))),
{
    let ghost all = texts(pages@);
    let mut text = String::new();
    let mut i: usize = 0;
    assert(all.take(0) =~= seq![]);
    while i < pages.len()
        invariant
            i <= pages@.len(),
            all == texts(pages@),
            text@ == paged(all.take(i as int)),
        decreases pages@.len() - i,
    {
        assert(all.take(i + 1).drop_last() =~= all.take(i as int));
        assert(all.take(i + 1).last() == pages@[i as int]@);
        text.append(pages[i].as_str());
        text.push('\u{c}');
        i = i + 1;
    }
    assert(all.take(pages@.len() as int) =~= all);
    normalize_offer_oz(text.as_str())
}

/// The bill with the remark that its pages were read from pictures.
pub open spec fn with_recognition_note(boq: BoqView, recognized: bool) -> BoqView {
    if recognized {
        BoqView {
            warnings: boq.warnings.push(
                "OCR-Vorprüfung verwendet: Das PDF enthielt keine ausreichende Textebene."@,
            ),
            ..boq
        }
    } else {
        boq
    }
}

/// The bill after the repairs that need no arithmetic.
pub open spec fn repaired_bill(
    boq: BoqView,
    text: Seq<char>,
    recognized: bool,
    layout: Result<Seq<char>, Seq<char>>,
) -> BoqView {
    let noted = with_recognition_note(boq, recognized);
    let completed = with_placeholders(noted, text).0;
    let shown = postprocessed(with_references_joined(completed), layout);
    BoqView { roots: with_clean_titles(shown.roots), ..shown }
}

/// The bill of quantities in a document, given its text, whether the text was read from
/// pictures, and its page layout.
pub open spec fn bill_of_document(
    source: Seq<char>,
    text: Seq<char>,
    recognized: bool,
    layout: Result<Seq<char>, Seq<char>>,
) -> Result<BoqView, Seq<char>> {
    match bill_of_text(source, text) {
        Err(e) => Err(e),
        Ok(read) => match with_repaired_prices(repaired_bill(read, text, recognized, layout)) {
            None => Err(overflow_message()),
            Some(priced) => match with_checked_totals(priced, text) {
                None => Err(overflow_message()),
                Some(checked) => Ok(checked),
            },
        },
    }
}

/// The bill of quantities in a document, given its text, whether the text was read from
/// pictures, and its page layout.
pub fn parse_document(
    source: &str,
    text: &str,
    recognized: bool,
    layout: &Result<String, Error>,
) -> (r: Result<BillOfQuantities, Error>)
    ensures
        boq_outcome(r) == bill_of_document(source@, text@, recognized, layout_view(*layout)),
{
    broadcast use lemma_texts_push;
    let mut boq = match parse_text(source, text) {
        Ok(boq) => boq,
        Err(error) => {
            return Err(error);
        },
    };
    let ghost read = boq@;
    if recognized {
        boq.warnings.push(
            "OCR-Vorprüfung verwendet: Das PDF enthielt keine ausreichende Textebene.".to_owned(),
        );
    }
    assert(boq@ == with_recognition_note(read, recognized));
    match recover_placeholder_positions_from_text(text, &mut boq) {
        Ok(_) => {},
        Err(error) => {
            return Err(error);
        },
    }
    repair_split_references(&mut boq);
    postprocess_pdf(layout, &mut boq);
    clean_titles(&mut boq.roots);
    assert(boq@ == repaired_bill(read, text@, recognized, layout_view(*layout)));
    match validate_and_repair_prices(&mut boq) {
        Ok(()) => {},
        Err(error) => {
            return Err(error);
        },
    }
    match validate_provisional_totals(text, &mut boq) {
        Ok(()) => {},
        Err(error) => {
            return Err(error);
        },
    }
    Ok(boq)
}

} // verus!
