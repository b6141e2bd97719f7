//! What the service answers where a stored state or a reply of another service decides.

use crate::accounts::{may_send_again, rested, since};
use crate::billing::{is_json, json_text, parses, text_at};
use crate::imprint::{
    extract_imprint_sections, imprint_on, opt_sections, section_views, ImprintSection, SectionView,
};
use crate::jobs::{is_pdf, starts_as_pdf};
use crate::model::opt_text;
use crate::text::{digits, number, same, utf8_text};
use crate::web::{refused, text_or_refusal, verdict, ApiError, ApiErrorView};
use vstd::prelude::*;

verus! {

/// Whether the test laboratory is open.
pub fn check_test_lab(enabled: bool) -> (r: Result<(), ApiError>)
    ensures
        verdict(r) == (if enabled {
            None
        } else {
            Some(refused(404, "Testlabor ist nicht aktiviert."@))
        }),
{
    if enabled {
        Ok(())
    } else {
        Err(ApiError::not_found("Testlabor ist nicht aktiviert."))
    }
}

/// Whether a file can be tried: a PDF that is within the limit.
pub open spec fn test_file_verdict(pdf: Seq<u8>, limit: nat) -> Option<ApiErrorView> {
    if pdf.len() == 0 || !is_pdf(pdf) {
        Some(refused(400, "Bitte eine gültige PDF-Datei auswählen."@))
    } else if pdf.len() > limit {
        Some(
            refused(
                413,
                "Eine Testdatei darf maximal "@ + digits(limit / 1024 / 1024) + " MB groß sein."@,
            ),
        )
    } else {
        None
    }
}

pub fn check_test_file(pdf: &[u8], limit: usize) -> (r: Result<(), ApiError>)
    ensures
        verdict(r) == test_file_verdict(pdf@, limit as nat),
{
    if pdf.len() == 0 || !starts_as_pdf(pdf) {
        return Err(ApiError::bad_request("Bitte eine gültige PDF-Datei auswählen."));
    }
    if pdf.len() > limit {
        let message = "Eine Testdatei darf maximal ".to_owned().concat(
            number((limit / 1024 / 1024) as u64).as_str(),
        ).concat(" MB groß sein.");
        return Err(ApiError { status: 413, message });
    }
    Ok(())
}

/// How a checkout stands: whether it is paid, and whether the access link may be sent
/// again.
#[derive(Clone, Copy, Debug, PartialEq, Eq, Structural)]
pub struct CheckoutState {
    pub access_ready: bool,
    pub can_resend: bool,
}

pub fn checkout_state(status: &str, sent: &Option<String>, now: &str) -> (r: CheckoutState)
    ensures
        r.access_ready == (status@ == "paid"@),
        r.can_resend == (status@ == "paid"@ && rested(since(opt_text(*sent), now@))),
{
    let access_ready = same(status, "paid");
    CheckoutState { access_ready, can_resend: access_ready && may_send_again(sent, now) }
}

/// Whether the access link of a checkout may be sent again: only of one that is paid, and
/// not too soon after the last.
pub fn check_resend(state: CheckoutState) -> (r: Result<(), ApiError>)
    ensures
        verdict(r) == (if state.can_resend {
            None
        } else {
            Some(refused(429, "Der Zugangslink wurde bereits kürzlich versendet."@))
        }),
{
    if state.can_resend {
        Ok(())
    } else {
        Err(ApiError::new(429, "Der Zugangslink wurde bereits kürzlich versendet."))
    }
}

/// What an event of the payment service is filed under.
pub struct EventHead {
    pub id: String,
    pub kind: String,
}

pub open spec fn head_outcome(r: Result<EventHead, ApiError>) -> Result<
    (Seq<char>, Seq<char>),
    ApiErrorView,
> {
    match r {
        Ok(head) => Ok((head.id@, head.kind@)),
        Err(error) => Err(error@),
    }
}

/// What an event is filed under; one without a number cannot be, one without a kind is of
/// an unknown one.
pub open spec fn event_head(parsed: bool, id: Option<Seq<char>>, kind: Option<Seq<char>>) -> Result<
    (Seq<char>, Seq<char>),
    ApiErrorView,
> {
    if !parsed {
        Err(refused(400, "Ungültiges Stripe-Ereignis."@))
    } else {
        match id {
            None => Err(refused(400, "Stripe-Ereignis ohne ID."@)),
            Some(id) => Ok(
                (
                    id,
                    match kind {
                        Some(kind) => kind,
                        None => "unknown"@,
                    },
                ),
            ),
        }
    }
}

/// What an event is filed under, given what stands in it.
pub fn judge_event_head(parsed: bool, id: Option<String>, kind: Option<String>) -> (r: Result<
    EventHead,
    ApiError,
>)
    ensures
        head_outcome(r) == event_head(parsed, opt_text(id), opt_text(kind)),
{
    if !parsed {
        return Err(ApiError::bad_request("Ungültiges Stripe-Ereignis."));
    }
    match id {
        None => Err(ApiError::bad_request("Stripe-Ereignis ohne ID.")),
        Some(id) => Ok(
            EventHead {
                id,
                kind: match kind {
                    Some(kind) => kind,
                    None => "unknown".to_owned(),
                },
            },
        ),
    }
}

/// What an event is filed under. A body that is not UTF-8 is no event.
pub fn read_event_head(body: &[u8]) -> (r: Result<EventHead, ApiError>)
    ensures
        head_outcome(r) == (if vstd::utf8::valid_utf8(body@) {
            let text = vstd::utf8::decode_utf8(body@);
            event_head(is_json(text), json_text(text, "/id"@), json_text(text, "/type"@))
        } else {
            event_head(false, None, None)
        }),
{
    match utf8_text(body) {
        Some(text) => judge_event_head(
            parses(text.as_str()),
            text_at(text.as_str(), "/id"),
            text_at(text.as_str(), "/type"),
        ),
        None => judge_event_head(false, None, None),
    }
}

/// The number under which the payment service knows an account.
pub open spec fn customer_result(stored: Option<Seq<char>>) -> Result<Seq<char>, ApiErrorView> {
    match stored {
        Some(customer) if customer.len() > 0 => Ok(customer),
        _ => Err(refused(400, "Für dieses Konto ist kein Stripe-Kunde hinterlegt."@)),
    }
}

pub fn portal_customer(stored: Option<String>) -> (r: Result<String, ApiError>)
    ensures
        text_or_refusal(r) == customer_result(opt_text(stored)),
{
    match stored {
        Some(customer) => {
            if customer.as_str().is_empty() {
                Err(ApiError::bad_request("Für dieses Konto ist kein Stripe-Kunde hinterlegt."))
            } else {
                Ok(customer)
            }
        },
        None => Err(ApiError::bad_request("Für dieses Konto ist kein Stripe-Kunde hinterlegt.")),
    }
}

/// Whether a job can be reviewed: one that was paid for and succeeded.
pub open spec fn reviewable(status: Seq<char>, tier: Seq<char>) -> bool {
    status == "ready"@ && (tier == "single"@ || tier == "pro"@)
}

pub fn is_reviewable(status: &str, tier: &str) -> (r: bool)
    ensures
        r == reviewable(status@, tier@),
{
    same(status, "ready") && (same(tier, "single") || same(tier, "pro"))
}

/// Whether a review is taken: of a job that can be reviewed, and only one.
pub fn check_review(eligible: bool, submitted: bool) -> (r: Result<(), ApiError>)
    ensures
        verdict(r) == (if !eligible {
            Some(
                refused(
                    403,
                    "Bewertungen sind nach einer erfolgreichen bezahlten Konvertierung möglich."@,
                ),
            )
        } else if submitted {
            Some(
                refused(
                    409,
                    "Für diese Konvertierung wurde bereits eine Bewertung abgegeben."@,
                ),
            )
        } else {
            None
        }),
{
    if !eligible {
        return Err(
            ApiError::new(
                403,
                "Bewertungen sind nach einer erfolgreichen bezahlten Konvertierung möglich.",
            ),
        );
    }
    if submitted {
        return Err(
            ApiError::new(409, "Für diese Konvertierung wurde bereits eine Bewertung abgegeben."),
        );
    }
    Ok(())
}

/// The media type of a converted file.
pub open spec fn media_type_of(format: Seq<char>) -> Seq<char> {
    if format == "x83"@ {
        "application/xml; charset=utf-8"@
    } else {
        "application/pdf"@
    }
}

pub fn media_type(format: &str) -> (r: &'static str)
    ensures
        r@ == media_type_of(format@),
{
    if same(format, "x83") {
        "application/xml; charset=utf-8"
    } else {
        "application/pdf"
    }
}

/// Whether an imprint that was kept this many seconds is still good: six hours.
pub fn imprint_is_fresh(seconds: u64) -> (r: bool)
    ensures
        r == (seconds < 6 * 60 * 60),
{
    seconds < 21_600
}

/// What came of a request for the page with the imprint.
pub enum Fetched {
    Page(String),
    Unreadable,
    Failed,
}

/// The refusal where there is no imprint to show.
pub open spec fn no_imprint() -> ApiErrorView {
    refused(502, "Das Impressum konnte vorübergehend nicht geladen werden."@)
}

pub open spec fn sections_outcome(r: Result<Vec<ImprintSection>, ApiError>) -> Result<
    Seq<SectionView>,
    ApiErrorView,
> {
    match r {
        Ok(sections) => Ok(section_views(sections@)),
        Err(error) => Err(error@),
    }
}

/// The imprint to show: that on the page, or where no page came, the one that was kept.
pub open spec fn imprint_result(
    fetched: Fetched,
    kept: Option<Seq<SectionView>>,
) -> Result<Seq<SectionView>, ApiErrorView> {
    let found = match fetched {
        Fetched::Page(body) => imprint_on(body@),
        Fetched::Unreadable => None,
        Fetched::Failed => kept,
    };
    match found {
        Some(sections) => Ok(sections),
        None => Err(no_imprint()),
    }
}

pub fn imprint_answer(fetched: &Fetched, kept: Option<Vec<ImprintSection>>) -> (r: Result<
    Vec<ImprintSection>,
    ApiError,
>)
    ensures
        sections_outcome(r) == imprint_result(*fetched, opt_sections(kept)),
{
    let found = match fetched {
        Fetched::Page(body) => extract_imprint_sections(body.as_str()),
        Fetched::Unreadable => None,
        Fetched::Failed => kept,
    };
    match found {
        Some(sections) => Ok(sections),
        None => Err(
            ApiError::upstream("Das Impressum konnte vorübergehend nicht geladen werden."),
        ),
    }
}

} // verus!
