//! What a conversion job does with a bill, and what its customer is told.

use crate::clock::{Moment, MomentView};
use crate::document::{failure, Error};
use crate::filenames::{converted_name, file_stem, output_filename, path_stem, safe_filename, safe_name};
use crate::gaeb90_export::bytes_outcome;
use crate::gaeb_reader::clone_texts;
use crate::gaeb_xml::tree_size;
use crate::inline_png::{
    illustrated, image_views, inject_pdf_pngs, places_of, InlinePng, InlinePngView,
};
use crate::jobs::{
    count_named_areas, count_positions, count_priced_positions, has_prices, named_count,
    priced_count,
};
use crate::model::{opt_text, BillOfQuantities, BoqView};
use crate::priced_export::{priced_outcome, write_x84, Phase};
use crate::provisional_xml::{apply_to_xml, flags_of, with_marks};
use crate::text::{digits, lemma_texts_push, number, same, texts, utf8_text};
use crate::tree::{positions_of, titles_of};
use crate::{request_outcome, write_x83};
use vstd::prelude::*;

verus! {

/// A written document with the images of the bill and the marks of optional positions.
pub open spec fn completed(bytes: Seq<u8>, images: Seq<InlinePngView>, boq: BoqView) -> Result<
    Seq<char>,
    Seq<char>,
> {
    if !vstd::utf8::valid_utf8(bytes) {
        Err("Dokument ist nicht UTF-8"@)
    } else {
        let text = vstd::utf8::decode_utf8(bytes);
        match illustrated(text, images, places_of(boq)) {
            Err(e) => Err(e),
            Ok((text, _)) => Ok(with_marks(text, flags_of(boq)).0),
        }
    }
}

pub open spec fn text_outcome(r: Result<String, Error>) -> Result<Seq<char>, Seq<char>> {
    match r {
        Ok(text) => Ok(text@),
        Err(error) => Err(error@),
    }
}

pub fn complete_document(bytes: &Vec<u8>, images: &Vec<InlinePng>, boq: &BillOfQuantities) -> (r:
    Result<String, Error>)
    ensures
        text_outcome(r) == completed(bytes@, image_views(images@), boq@),
{
    let text = match utf8_text(bytes.as_slice()) {
        Some(text) => text,
        None => {
            return Err(failure("Dokument ist nicht UTF-8"));
        },
    };
    let shown = match inject_pdf_pngs(text.as_str(), images, boq) {
        Ok((shown, _)) => shown,
        Err(error) => {
            return Err(error);
        },
    };
    match apply_to_xml(shown.as_str(), boq) {
        Ok((marked, _)) => Ok(marked),
        Err(error) => Err(error),
    }
}

/// A document made of what was written, if it was.
pub open spec fn completed_outcome(
    written: Result<Seq<u8>, Seq<char>>,
    images: Seq<InlinePngView>,
    boq: BoqView,
) -> Result<Seq<char>, Seq<char>> {
    match written {
        Ok(bytes) => completed(bytes, images, boq),
        Err(e) => Err(e),
    }
}

fn complete_written(
    written: Result<Vec<u8>, Error>,
    images: &Vec<InlinePng>,
    boq: &BillOfQuantities,
) -> (r: Result<String, Error>)
    ensures
        text_outcome(r) == completed_outcome(bytes_outcome(written), image_views(images@), boq@),
{
    match written {
        Ok(bytes) => complete_document(&bytes, images, boq),
        Err(error) => Err(error),
    }
}

/// What a job makes of a bill.
#[verifier::ext_equal]
pub struct ProcessedView {
    pub request: Seq<char>,
    pub offer: Option<Seq<char>>,
    pub report: Option<Seq<char>>,
}

/// What a job makes of a bill: the request, the offer where there are prices, and where
/// the request has to be checked, the report on it.
pub struct Processed {
    pub request: String,
    pub offer: Option<String>,
    pub report: Option<String>,
}

impl View for Processed {
    type V = ProcessedView;

    open spec fn view(&self) -> ProcessedView {
        ProcessedView {
            request: self.request@,
            offer: opt_text(self.offer),
            report: opt_text(self.report),
        }
    }
}

pub open spec fn processed_outcome(r: Result<Processed, Error>) -> Result<
    ProcessedView,
    Seq<char>,
> {
    match r {
        Ok(processed) => Ok(processed@),
        Err(error) => Err(error@),
    }
}

/// The report on a request that was written in spite of conflicts.
pub open spec fn conflict_report(conflicts: Seq<char>) -> Seq<char> {
    "PRÜFPFLICHTIGER X83-ENTWURF\n===========================\n\nDer sichere Export wurde wegen folgender Konflikte blockiert.\nDie beigefügte X83 wurde fehlertolerant erzeugt und muss vor jeder\nweiteren Verwendung fachlich geprüft werden.\n\n"@
        + conflicts + "\n"@
}

fn report_on(conflicts: &str) -> (r: String)
    ensures
        r@ == conflict_report(conflicts@),
{
    "PRÜFPFLICHTIGER X83-ENTWURF\n===========================\n\nDer sichere Export wurde wegen folgender Konflikte blockiert.\nDie beigefügte X83 wurde fehlertolerant erzeugt und muss vor jeder\nweiteren Verwendung fachlich geprüft werden.\n\n".to_owned().concat(
        conflicts,
    ).concat("\n")
}

/// What is said of a bill that is too large for the free conversion.
pub open spec fn too_many(positions: nat) -> Seq<char> {
    "Die kostenlose Version unterstützt maximal 50 Positionen; erkannt wurden "@ + digits(positions)
        + "."@
}

/// What a job makes of a bill without conflicts.
pub open spec fn clean_result(
    boq: BoqView,
    moment: MomentView,
    images: Seq<InlinePngView>,
    request: Seq<u8>,
) -> Result<ProcessedView, Seq<char>> {
    match completed(request, images, boq) {
        Err(e) => Err(e),
        Ok(request) => if priced_count(positions_of(boq.roots)) == 0 {
            Ok(ProcessedView { request, offer: None, report: None })
        } else {
            match completed_outcome(priced_outcome(boq, moment, false, Phase::X84), images, boq) {
                Err(e) => Err(e),
                Ok(offer) => Ok(ProcessedView { request, offer: Some(offer), report: None }),
            }
        },
    }
}

/// What a job makes of a bill: with conflicts only for who agreed to get a draft by
/// e-mail, and for free only up to fifty positions.
pub open spec fn job_result(
    boq: BoqView,
    moment: MomentView,
    images: Seq<InlinePngView>,
    tier: Seq<char>,
    fallback: bool,
) -> Result<ProcessedView, Seq<char>> {
    let count = positions_of(boq.roots).len();
    if tier == "free"@ && count > 50 {
        Err(too_many(count))
    } else {
        match request_outcome(boq, moment, false) {
            Ok(bytes) => clean_result(boq, moment, images, bytes),
            Err(conflicts) => if fallback {
                match completed_outcome(request_outcome(boq, moment, true), images, boq) {
                    Err(e) => Err(e),
                    Ok(request) => Ok(
                        ProcessedView {
                            request,
                            offer: None,
                            report: Some(conflict_report(conflicts)),
                        },
                    ),
                }
            } else {
                Err(conflicts)
            },
        }
    }
}

fn process_clean(
    boq: &BillOfQuantities,
    moment: &Moment,
    images: &Vec<InlinePng>,
    bytes: &Vec<u8>,
) -> (r: Result<Processed, Error>)
    requires
        tree_size(boq@.roots) < u64::MAX,
    ensures
        processed_outcome(r) == clean_result(boq@, moment@, image_views(images@), bytes@),
{
    let request = match complete_document(bytes, images, boq) {
        Ok(request) => request,
        Err(error) => {
            return Err(error);
        },
    };
    if !has_prices(&boq.roots) {
        return Ok(Processed { request, offer: None, report: None });
    }
    match complete_written(write_x84(boq, moment, false), images, boq) {
        Ok(offer) => Ok(Processed { request, offer: Some(offer), report: None }),
        Err(error) => Err(error),
    }
}

/// What a job makes of a bill.
pub fn process_bill(
    boq: &BillOfQuantities,
    moment: &Moment,
    images: &Vec<InlinePng>,
    tier: &str,
    fallback: bool,
) -> (r: Result<Processed, Error>)
    requires
        tree_size(boq@.roots) < u64::MAX,
    ensures
        processed_outcome(r) == job_result(
            boq@,
            moment@,
            image_views(images@),
            tier@,
            fallback,
        ),
{
    if same(tier, "free") {
        let count = count_positions(&boq.roots);
        if count > 50 {
            let message = "Die kostenlose Version unterstützt maximal 50 Positionen; erkannt wurden ".to_owned().concat(
                number(count as u64).as_str(),
            ).concat(".");
            return Err(Error { message });
        }
    }
    match write_x83(boq, moment, false) {
        Ok(bytes) => process_clean(boq, moment, images, &bytes),
        Err(conflicts) => {
            if !fallback {
                return Err(conflicts);
            }
            match complete_written(write_x83(boq, moment, true), images, boq) {
                Ok(request) => Ok(
                    Processed {
                        request,
                        offer: None,
                        report: Some(report_on(conflicts.message.as_str())),
                    },
                ),
                Err(error) => Err(error),
            }
        },
    }
}

/// A draft is only made for who agreed to it, and then it comes with a report.
pub proof fn law_draft_needs_consent(
    boq: BoqView,
    moment: MomentView,
    images: Seq<InlinePngView>,
    tier: Seq<char>,
    fallback: bool,
)
    requires
        job_result(boq, moment, images, tier, fallback) is Ok,
        request_outcome(boq, moment, false) is Err,
    ensures
        fallback,
        job_result(boq, moment, images, tier, fallback)->Ok_0.report is Some,
        job_result(boq, moment, images, tier, fallback)->Ok_0.offer is None,
{
}

/// What a trial makes of a bill: every document, and what stands in its way.
#[verifier::ext_equal]
pub struct TrialView {
    pub request: Seq<char>,
    pub offer: Option<Seq<char>>,
    pub warnings: Seq<Seq<char>>,
}

/// What a trial makes of a bill: every document, and what stands in its way.
pub struct Trial {
    pub request: String,
    pub offer: Option<String>,
    pub warnings: Vec<String>,
}

impl View for Trial {
    type V = TrialView;

    open spec fn view(&self) -> TrialView {
        TrialView {
            request: self.request@,
            offer: opt_text(self.offer),
            warnings: texts(self.warnings@),
        }
    }
}

pub open spec fn trial_outcome(r: Result<Trial, Error>) -> Result<TrialView, Seq<char>> {
    match r {
        Ok(trial) => Ok(trial@),
        Err(error) => Err(error@),
    }
}

/// The warning that a document could only be written in spite of conflicts.
pub open spec fn trial_warning(
    label: Seq<char>,
    strict: Result<Seq<u8>, Seq<char>>,
) -> Seq<Seq<char>> {
    match strict {
        Ok(_) => seq![],
        Err(conflicts) => seq!["Sicherer "@ + label + "-Export: "@ + conflicts],
    }
}

/// What a trial makes of a bill.
pub open spec fn trial_result(boq: BoqView, moment: MomentView, images: Seq<InlinePngView>) -> Result<
    TrialView,
    Seq<char>,
> {
    let strict = request_outcome(boq, moment, false);
    let first = trial_warning("X83"@, strict);
    let written = if strict is Ok {
        strict
    } else {
        request_outcome(boq, moment, true)
    };
    match completed_outcome(written, images, boq) {
        Err(e) => Err(e),
        Ok(request) => if priced_count(positions_of(boq.roots)) == 0 {
            Ok(TrialView { request, offer: None, warnings: first })
        } else {
            let strict = priced_outcome(boq, moment, false, Phase::X84);
            let second = trial_warning("X84"@, strict);
            let written = if strict is Ok {
                strict
            } else {
                priced_outcome(boq, moment, true, Phase::X84)
            };
            match completed_outcome(written, images, boq) {
                Err(e) => Err(e),
                Ok(offer) => Ok(
                    TrialView { request, offer: Some(offer), warnings: first + second },
                ),
            }
        },
    }
}

fn warn_of_conflicts(warnings: &mut Vec<String>, label: &str, conflicts: &str)
    ensures
        texts(final(warnings)@) == texts(old(warnings)@) + seq![
            "Sicherer "@ + label@ + "-Export: "@ + conflicts@,
        ],
{
    broadcast use lemma_texts_push;
    let ghost before = texts(warnings@);
    let text = "Sicherer ".to_owned().concat(label).concat("-Export: ").concat(conflicts);
    let ghost said = text@;
    warnings.push(text);
    assert(before.push(said) =~= before + seq![said]);
}

/// What a trial makes of a bill.
pub fn try_bill(boq: &BillOfQuantities, moment: &Moment, images: &Vec<InlinePng>) -> (r: Result<
    Trial,
    Error,
>)
    requires
        tree_size(boq@.roots) < u64::MAX,
    ensures
        trial_outcome(r) == trial_result(boq@, moment@, image_views(images@)),
{
    let mut warnings: Vec<String> = Vec::new();
    assert(texts(warnings@) =~= seq![]);
    let written = match write_x83(boq, moment, false) {
        Ok(bytes) => Ok(bytes),
        Err(conflicts) => {
            warn_of_conflicts(&mut warnings, "X83", conflicts.message.as_str());
            write_x83(boq, moment, true)
        },
    };
    let ghost first = trial_warning("X83"@, request_outcome(boq@, moment@, false));
    assert(texts(warnings@) =~= first);
    let request = match complete_written(written, images, boq) {
        Ok(request) => request,
        Err(error) => {
            return Err(error);
        },
    };
    if !has_prices(&boq.roots) {
        return Ok(Trial { request, offer: None, warnings });
    }
    let written = match write_x84(boq, moment, false) {
        Ok(bytes) => Ok(bytes),
        Err(conflicts) => {
            warn_of_conflicts(&mut warnings, "X84", conflicts.message.as_str());
            write_x84(boq, moment, true)
        },
    };
    assert(texts(warnings@) =~= first + trial_warning(
        "X84"@,
        priced_outcome(boq@, moment@, false, Phase::X84),
    ));
    match complete_written(written, images, boq) {
        Ok(offer) => Ok(Trial { request, offer: Some(offer), warnings }),
        Err(error) => Err(error),
    }
}

/// The stem of the names in the archive of a trial.
pub open spec fn trial_stem(filename: Seq<char>) -> Seq<char> {
    safe_name(
        match path_stem(filename) {
            Some(stem) => stem,
            None => "gaeb-test"@,
        },
    )
}

pub fn archive_stem(filename: &str) -> (r: String)
    ensures
        r@ == trial_stem(filename@),
{
    match file_stem(filename) {
        Some(stem) => safe_filename(stem.as_str()),
        None => safe_filename("gaeb-test"),
    }
}

/// The names of a trial: of its archive, and of the files in it.
pub struct TrialNames {
    pub archive: String,
    pub request: String,
    pub offer: String,
    pub report: String,
}

pub fn trial_names(stem: &str) -> (r: TrialNames)
    ensures
        r.archive@ == stem@ + "-gaeb-test.zip"@,
        r.request@ == stem@ + ".x83"@,
        r.offer@ == stem@ + ".x84"@,
        r.report@ == stem@ + "-pruefbericht.json"@,
{
    TrialNames {
        archive: stem.to_owned().concat("-gaeb-test.zip"),
        request: stem.to_owned().concat(".x83"),
        offer: stem.to_owned().concat(".x84"),
        report: stem.to_owned().concat("-pruefbericht.json"),
    }
}

/// What the report on a trial says.
pub struct TrialReport {
    pub source: String,
    pub positions: usize,
    pub priced_positions: usize,
    pub named_areas: usize,
    pub x84_created: bool,
    pub parser_warnings: Vec<String>,
    pub export_warnings: Vec<String>,
    pub notice: String,
}

/// The report on the trial of a bill.
pub fn trial_report(filename: &str, boq: &BillOfQuantities, trial: &Trial) -> (r: TrialReport)
    ensures
        r.source@ == safe_name(filename@),
        r.positions == positions_of(boq@.roots).len(),
        r.priced_positions == priced_count(positions_of(boq@.roots)),
        r.named_areas == named_count(titles_of(boq@.roots)),
        r.x84_created == (trial@.offer is Some),
        texts(r.parser_warnings@) == boq@.warnings,
        texts(r.export_warnings@) == trial@.warnings,
        r.notice@
            == "Testexport ohne Kontingentverbrauch. Dateien fachlich und im Zielsystem prüfen."@,
{
    TrialReport {
        source: safe_filename(filename),
        positions: count_positions(&boq.roots),
        priced_positions: count_priced_positions(&boq.roots),
        named_areas: count_named_areas(&boq.roots),
        x84_created: trial.offer.is_some(),
        parser_warnings: clone_texts(&boq.warnings),
        export_warnings: clone_texts(&trial.warnings),
        notice: "Testexport ohne Kontingentverbrauch. Dateien fachlich und im Zielsystem prüfen.".to_owned(),
    }
}

/// What the e-mail with a draft is called and says.
pub struct DraftMail {
    pub draft_name: String,
    pub report_name: String,
    pub body: String,
}

/// The name under which a draft is sent.
pub open spec fn draft_name(filename: Seq<char>) -> Seq<char> {
    "PRUEFEN_"@ + converted_name(filename, "x83"@)
}

/// The name under which the report on a draft is sent.
pub open spec fn report_name(filename: Seq<char>) -> Seq<char> {
    safe_name(
        match path_stem(filename) {
            Some(stem) => stem,
            None => "leistungsverzeichnis"@,
        },
    ) + "_Fehlerprotokoll.txt"@
}

/// What the e-mail with a draft says.
pub open spec fn draft_body(contact_name: Seq<char>) -> Seq<char> {
    "Guten Tag "@ + contact_name
        + ",\n\nder sichere X83-Export war wegen erkannter Konflikte nicht möglich.\nAuf Ihren Wunsch erhalten Sie:\n- das Original-PDF,\n- einen ausdrücklich prüfpflichtigen X83-Entwurf und\n- das Fehlerprotokoll.\n\nVerwenden Sie den X83-Entwurf erst nach fachlicher Prüfung.\nDie Diagnosedaten werden spätestens nach dem vereinbarten Zeitraum gelöscht.\n"@
}

pub fn draft_mail(filename: &str, contact_name: &str) -> (r: DraftMail)
    ensures
        r.draft_name@ == draft_name(filename@),
        r.report_name@ == report_name(filename@),
        r.body@ == draft_body(contact_name@),
{
    let stem = match file_stem(filename) {
        Some(stem) => stem,
        None => "leistungsverzeichnis".to_owned(),
    };
    DraftMail {
        draft_name: "PRUEFEN_".to_owned().concat(output_filename(filename).as_str()),
        report_name: safe_filename(stem.as_str()).concat("_Fehlerprotokoll.txt"),
        body: "Guten Tag ".to_owned().concat(contact_name).concat(
            ",\n\nder sichere X83-Export war wegen erkannter Konflikte nicht möglich.\nAuf Ihren Wunsch erhalten Sie:\n- das Original-PDF,\n- einen ausdrücklich prüfpflichtigen X83-Entwurf und\n- das Fehlerprotokoll.\n\nVerwenden Sie den X83-Entwurf erst nach fachlicher Prüfung.\nDie Diagnosedaten werden spätestens nach dem vereinbarten Zeitraum gelöscht.\n",
        ),
    }
}

/// The page to which an access link leads.
pub open spec fn access_page(offer: Seq<char>) -> Seq<char> {
    if offer == "account"@ {
        "/konto.html"@
    } else {
        "/"@
    }
}

pub fn redirect_for(offer: &str) -> (r: &'static str)
    ensures
        r@ == access_page(offer@),
{
    if same(offer, "account") {
        "/konto.html"
    } else {
        "/"
    }
}

/// What the e-mail with an access link says first.
pub open spec fn access_introduction(offer: Seq<char>) -> Seq<char> {
    if offer == "account"@ {
        "Ihr Kundenkonto wurde angefordert."@
    } else if offer == "pro"@ {
        "Ihre Zahlung für GAEB Pro wurde bestätigt."@
    } else if offer == "single"@ {
        "Ihre Zahlung für eine Einzelkonvertierung wurde bestätigt."@
    } else {
        "Ihre Zahlung für Ihr GAEB-Konto wurde bestätigt."@
    }
}

/// What the e-mail with an access link says.
pub open spec fn access_body(offer: Seq<char>, base_url: Seq<char>, token: Seq<char>) -> Seq<char> {
    "Guten Tag,\n\n"@ + access_introduction(offer)
        + "\n\nÖffnen Sie innerhalb von 24 Stunden diesen persönlichen Zugangslink:\n"@ + base_url
        + "/billing/access/"@ + token
        + "\n\nAnschließend ist Ihr gekauftes Kontingent in diesem Browser freigeschaltet.\n\nFalls Sie den Kauf nicht durchgeführt haben, ignorieren Sie diese Nachricht.\n"@
}

pub fn access_mail(offer: &str, base_url: &str, token: &str) -> (r: String)
    ensures
        r@ == access_body(offer@, base_url@, token@),
{
    let introduction = if same(offer, "account") {
        "Ihr Kundenkonto wurde angefordert."
    } else if same(offer, "pro") {
        "Ihre Zahlung für GAEB Pro wurde bestätigt."
    } else if same(offer, "single") {
        "Ihre Zahlung für eine Einzelkonvertierung wurde bestätigt."
    } else {
        "Ihre Zahlung für Ihr GAEB-Konto wurde bestätigt."
    };
    "Guten Tag,\n\n".to_owned().concat(introduction).concat(
        "\n\nÖffnen Sie innerhalb von 24 Stunden diesen persönlichen Zugangslink:\n",
    ).concat(base_url).concat("/billing/access/").concat(token).concat(
        "\n\nAnschließend ist Ihr gekauftes Kontingent in diesem Browser freigeschaltet.\n\nFalls Sie den Kauf nicht durchgeführt haben, ignorieren Sie diese Nachricht.\n",
    )
}

} // verus!
