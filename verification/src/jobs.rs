//! Conversion jobs: what may be uploaded, what is reserved for it, and what can be fetched.

use crate::accounts::{email_shaped, kept_email, normalize_email, valid_email};
use crate::billing::{month_usage, within_limit, PRO_STORAGE_BYTES};
use crate::filenames::{path_extension, readable_extension, supported_gaeb_filename};
use crate::model::{node_views, opt_text, BillOfQuantities, BoqView, Node, PositionView};
use crate::text::{
    ascii_lowercase, ascii_lowered, digits, number, same, starts_with, texts, trim, trimmed,
};
use crate::tree::{heading_titles, positions, positions_of, ref_views, titles_of};
use crate::web::{refused, verdict, ApiError, ApiErrorView};
use vstd::prelude::*;

verus! {

/// What an upload of a printed bill is.
#[verifier::ext_equal]
pub struct UploadView {
    pub email: Seq<char>,
    pub contact_name: Seq<char>,
    pub company: Seq<char>,
    pub phone: Seq<char>,
    pub consent: bool,
    pub email_fallback_consent: bool,
    pub feature_updates_consent: bool,
    pub confirm_structure: bool,
    pub filename: Seq<char>,
    pub pdf: Seq<u8>,
}

/// An upload of a printed bill.
pub struct UploadForm {
    pub email: String,
    pub contact_name: String,
    pub company: String,
    pub phone: String,
    pub consent: bool,
    pub email_fallback_consent: bool,
    pub feature_updates_consent: bool,
    pub confirm_structure: bool,
    pub filename: String,
    pub pdf: Vec<u8>,
}

impl View for UploadForm {
    type V = UploadView;

    open spec fn view(&self) -> UploadView {
        UploadView {
            email: self.email@,
            contact_name: self.contact_name@,
            company: self.company@,
            phone: self.phone@,
            consent: self.consent,
            email_fallback_consent: self.email_fallback_consent,
            feature_updates_consent: self.feature_updates_consent,
            confirm_structure: self.confirm_structure,
            filename: self.filename@,
            pdf: self.pdf@,
        }
    }
}

/// Whether a field of a form is checked.
pub open spec fn checked(value: Seq<char>) -> bool {
    value == "true"@ || value == "on"@
}

fn is_checked(value: &str) -> (r: bool)
    ensures
        r == checked(value@),
{
    same(value, "true") || same(value, "on")
}

/// An upload with one more field; one that is unknown changes nothing.
pub open spec fn with_field(form: UploadView, name: Seq<char>, value: Seq<char>) -> UploadView {
    if name == "email"@ {
        UploadView { email: kept_email(value), ..form }
    } else if name == "contact_name"@ {
        UploadView { contact_name: trim(value), ..form }
    } else if name == "company"@ {
        UploadView { company: trim(value), ..form }
    } else if name == "phone"@ {
        UploadView { phone: trim(value), ..form }
    } else if name == "consent"@ {
        UploadView { consent: checked(value), ..form }
    } else if name == "email_fallback_consent"@ {
        UploadView { email_fallback_consent: checked(value), ..form }
    } else if name == "feature_updates_consent"@ {
        UploadView { feature_updates_consent: checked(value), ..form }
    } else if name == "confirm_structure"@ {
        UploadView { confirm_structure: value == "true"@, ..form }
    } else {
        form
    }
}

/// Whether an upload can be taken.
pub open spec fn upload_verdict(
    form: UploadView,
    free_limit: nat,
    paid_limit: nat,
    access: Option<Seq<char>>,
) -> Option<ApiErrorView> {
    let allowed = if access is Some {
        paid_limit
    } else {
        free_limit
    };
    if form.contact_name.len() < 2 {
        Some(refused(400, "Bitte einen Kontaktnamen angeben."@))
    } else if !email_shaped(form.email) {
        Some(refused(400, "Bitte eine gültige E-Mail-Adresse angeben."@))
    } else if !form.consent {
        Some(
            refused(
                400,
                "Bitte die Datenschutzerklärung bestätigen und die Konvertierung beauftragen."@,
            ),
        )
    } else if form.pdf.len() == 0 {
        Some(refused(400, "Bitte eine PDF-Datei auswählen."@))
    } else if access is Some && access->0 != form.email {
        Some(refused(403, "Bitte die beim Kauf verwendete E-Mail-Adresse verwenden."@))
    } else if form.pdf.len() > allowed {
        Some(refused(413, too_large(allowed)))
    } else if !is_pdf(form.pdf) {
        Some(refused(400, "Die Datei ist keine gültige PDF."@))
    } else {
        None
    }
}

/// What is said of a file that is too large.
pub open spec fn too_large(allowed: nat) -> Seq<char> {
    "Diese Zugangsart akzeptiert maximal "@ + digits(allowed / 1024 / 1024) + " MB."@
}

/// Whether bytes start as those of a PDF document do.
pub open spec fn is_pdf(bytes: Seq<u8>) -> bool {
    &&& bytes.len() >= 5
    &&& bytes[0] == 0x25 && bytes[1] == 0x50 && bytes[2] == 0x44 && bytes[3] == 0x46 && bytes[4]
        == 0x2d
}

pub fn starts_as_pdf(bytes: &[u8]) -> (r: bool)
    ensures
        r == is_pdf(bytes@),
{
    bytes.len() >= 5 && bytes[0] == 0x25 && bytes[1] == 0x50 && bytes[2] == 0x44 && bytes[3] == 0x46
        && bytes[4] == 0x2d
}

fn refuse_size(allowed: usize) -> (r: ApiError)
    ensures
        r@ == refused(413, too_large(allowed as nat)),
{
    let message = "Diese Zugangsart akzeptiert maximal ".to_owned().concat(
        number((allowed / 1024 / 1024) as u64).as_str(),
    ).concat(" MB.");
    ApiError { status: 413, message }
}

impl UploadForm {
    pub fn new() -> (r: UploadForm)
        ensures
            r@ == (UploadView {
                email: seq![],
                contact_name: seq![],
                company: seq![],
                phone: seq![],
                consent: false,
                email_fallback_consent: false,
                feature_updates_consent: false,
                confirm_structure: false,
                filename: seq![],
                pdf: seq![],
            }),
    {
        UploadForm {
            email: String::new(),
            contact_name: String::new(),
            company: String::new(),
            phone: String::new(),
            consent: false,
            email_fallback_consent: false,
            feature_updates_consent: false,
            confirm_structure: false,
            filename: String::new(),
            pdf: Vec::new(),
        }
    }

    pub fn set(&mut self, name: &str, value: &str)
        ensures
            final(self)@ == with_field(old(self)@, name@, value@),
    {
        if same(name, "email") {
            self.email = normalize_email(value);
        } else if same(name, "contact_name") {
            self.contact_name = trimmed(value);
        } else if same(name, "company") {
            self.company = trimmed(value);
        } else if same(name, "phone") {
            self.phone = trimmed(value);
        } else if same(name, "consent") {
            self.consent = is_checked(value);
        } else if same(name, "email_fallback_consent") {
            self.email_fallback_consent = is_checked(value);
        } else if same(name, "feature_updates_consent") {
            self.feature_updates_consent = is_checked(value);
        } else if same(name, "confirm_structure") {
            self.confirm_structure = same(value, "true");
        }
    }
}

pub fn validate_form(
    form: &UploadForm,
    max_upload_bytes: usize,
    paid_max_upload_bytes: usize,
    access: &Option<String>,
) -> (r: Result<(), ApiError>)
    ensures
        verdict(r) == upload_verdict(
            form@,
            max_upload_bytes as nat,
            paid_max_upload_bytes as nat,
            opt_text(*access),
        ),
{
    if form.contact_name.as_str().unicode_len() < 2 {
        return Err(ApiError::bad_request("Bitte einen Kontaktnamen angeben."));
    }
    if !valid_email(form.email.as_str()) {
        return Err(ApiError::bad_request("Bitte eine gültige E-Mail-Adresse angeben."));
    }
    if !form.consent {
        return Err(
            ApiError::bad_request(
                "Bitte die Datenschutzerklärung bestätigen und die Konvertierung beauftragen.",
            ),
        );
    }
    if form.pdf.len() == 0 {
        return Err(ApiError::bad_request("Bitte eine PDF-Datei auswählen."));
    }
    let allowed: usize = match access {
        Some(email) => {
            if !same(email.as_str(), form.email.as_str()) {
                return Err(
                    ApiError::new(403, "Bitte die beim Kauf verwendete E-Mail-Adresse verwenden."),
                );
            }
            paid_max_upload_bytes
        },
        None => max_upload_bytes,
    };
    if form.pdf.len() > allowed {
        return Err(refuse_size(allowed));
    }
    if !starts_as_pdf(form.pdf.as_slice()) {
        return Err(ApiError::bad_request("Die Datei ist keine gültige PDF."));
    }
    Ok(())
}

/// What an upload of an exchange file is.
#[verifier::ext_equal]
pub struct GaebUploadView {
    pub filename: Seq<char>,
    pub gaeb: Seq<u8>,
    pub email: Seq<char>,
    pub consent: bool,
    pub output_format: Seq<char>,
}

/// An upload of an exchange file.
pub struct GaebUpload {
    pub filename: String,
    pub gaeb: Vec<u8>,
    pub email: String,
    pub consent: bool,
    pub output_format: String,
}

impl View for GaebUpload {
    type V = GaebUploadView;

    open spec fn view(&self) -> GaebUploadView {
        GaebUploadView {
            filename: self.filename@,
            gaeb: self.gaeb@,
            email: self.email@,
            consent: self.consent,
            output_format: self.output_format@,
        }
    }
}

/// An upload with one more field; one that is unknown changes nothing.
pub open spec fn with_gaeb_field(
    form: GaebUploadView,
    name: Seq<char>,
    value: Seq<char>,
) -> GaebUploadView {
    if name == "email"@ {
        GaebUploadView { email: kept_email(value), ..form }
    } else if name == "consent"@ {
        GaebUploadView { consent: checked(value), ..form }
    } else if name == "output_format"@ {
        GaebUploadView { output_format: ascii_lowercase(trim(value)), ..form }
    } else {
        form
    }
}

/// Whether a file name is that of an exchange file.
pub open spec fn gaeb_name(filename: Seq<char>) -> bool {
    path_extension(filename) is Some && readable_extension(path_extension(filename)->0)
}

/// Whether an upload of an exchange file can be converted.
pub open spec fn gaeb_verdict(form: GaebUploadView) -> Option<ApiErrorView> {
    if form.gaeb.len() == 0 {
        Some(refused(400, "Bitte eine GAEB-Datei auswählen."@))
    } else if !gaeb_name(form.filename) {
        Some(
            refused(
                400,
                "Nicht unterstütztes Format. Bitte D81, D83, P81, P83 oder GAEB DA XML als X80 bis X86 beziehungsweise X89 auswählen."@,
            ),
        )
    } else if form.output_format != "pdf"@ && form.output_format != "x83"@ {
        Some(refused(400, "Bitte PDF oder X83 als Ausgabeformat wählen."@))
    } else {
        None
    }
}

impl GaebUpload {
    pub fn new() -> (r: GaebUpload)
        ensures
            r@ == (GaebUploadView {
                filename: "leistungsverzeichnis.x83"@,
                gaeb: seq![],
                email: seq![],
                consent: false,
                output_format: "pdf"@,
            }),
    {
        GaebUpload {
            filename: "leistungsverzeichnis.x83".to_owned(),
            gaeb: Vec::new(),
            email: String::new(),
            consent: false,
            output_format: "pdf".to_owned(),
        }
    }

    pub fn set(&mut self, name: &str, value: &str)
        ensures
            final(self)@ == with_gaeb_field(old(self)@, name@, value@),
    {
        if same(name, "email") {
            self.email = normalize_email(value);
        } else if same(name, "consent") {
            self.consent = is_checked(value);
        } else if same(name, "output_format") {
            self.output_format = ascii_lowered(trimmed(value).as_str());
        }
    }

    pub fn validate(&self) -> (r: Result<(), ApiError>)
        ensures
            verdict(r) == gaeb_verdict(self@),
    {
        if self.gaeb.len() == 0 {
            return Err(ApiError::bad_request("Bitte eine GAEB-Datei auswählen."));
        }
        if !supported_gaeb_filename(self.filename.as_str()) {
            return Err(
                ApiError::bad_request(
                    "Nicht unterstütztes Format. Bitte D81, D83, P81, P83 oder GAEB DA XML als X80 bis X86 beziehungsweise X89 auswählen.",
                ),
            );
        }
        if !same(self.output_format.as_str(), "pdf") && !same(self.output_format.as_str(), "x83") {
            return Err(ApiError::bad_request("Bitte PDF oder X83 als Ausgabeformat wählen."));
        }
        Ok(())
    }
}

/// On what terms a conversion runs.
#[verifier::ext_equal]
pub struct TermsView {
    pub email: Seq<char>,
    pub tier: Seq<char>,
    pub allowed_bytes: nat,
    pub monthly_limit: nat,
}

/// On what terms a conversion runs.
pub struct Terms {
    pub email: String,
    pub tier: &'static str,
    pub allowed_bytes: usize,
    pub monthly_limit: u32,
}

impl View for Terms {
    type V = TermsView;

    open spec fn view(&self) -> TermsView {
        TermsView {
            email: self.email@,
            tier: self.tier@,
            allowed_bytes: self.allowed_bytes as nat,
            monthly_limit: self.monthly_limit as nat,
        }
    }
}

/// The terms of a conversion: those of the subscription of who is signed in, or the free
/// ones for who gives an address and consents.
pub open spec fn conversion_terms(
    subscriber: Option<Seq<char>>,
    submitted_email: Seq<char>,
    consent: bool,
    free_limit: nat,
    paid_limit: nat,
) -> Result<TermsView, ApiErrorView> {
    match subscriber {
        Some(email) => Ok(
            TermsView { email, tier: "pro"@, allowed_bytes: paid_limit, monthly_limit: 100 },
        ),
        None => if !email_shaped(submitted_email) {
            Err(refused(400, "Bitte eine gültige E-Mail-Adresse angeben."@))
        } else if !consent {
            Err(
                refused(
                    400,
                    "Bitte die Datenschutzerklärung bestätigen und die Konvertierung beauftragen."@,
                ),
            )
        } else {
            Ok(
                TermsView {
                    email: submitted_email,
                    tier: "free"@,
                    allowed_bytes: free_limit,
                    monthly_limit: 3,
                },
            )
        },
    }
}

pub open spec fn terms_outcome(r: Result<Terms, ApiError>) -> Result<TermsView, ApiErrorView> {
    match r {
        Ok(terms) => Ok(terms@),
        Err(error) => Err(error@),
    }
}

pub fn gaeb_conversion_access(
    subscriber: &Option<String>,
    submitted_email: &str,
    consent: bool,
    max_upload_bytes: usize,
    paid_max_upload_bytes: usize,
) -> (r: Result<Terms, ApiError>)
    ensures
        terms_outcome(r) == conversion_terms(
            opt_text(*subscriber),
            submitted_email@,
            consent,
            max_upload_bytes as nat,
            paid_max_upload_bytes as nat,
        ),
{
    if let Some(email) = subscriber {
        return Ok(
            Terms {
                email: email.clone(),
                tier: "pro",
                allowed_bytes: paid_max_upload_bytes,
                monthly_limit: 100,
            },
        );
    }
    if !valid_email(submitted_email) {
        return Err(ApiError::bad_request("Bitte eine gültige E-Mail-Adresse angeben."));
    }
    if !consent {
        return Err(
            ApiError::bad_request(
                "Bitte die Datenschutzerklärung bestätigen und die Konvertierung beauftragen.",
            ),
        );
    }
    Ok(
        Terms {
            email: submitted_email.to_owned(),
            tier: "free",
            allowed_bytes: max_upload_bytes,
            monthly_limit: 3,
        },
    )
}

/// Whether a file is within what the terms allow.
pub fn check_size(bytes: usize, allowed: usize) -> (r: Result<(), ApiError>)
    ensures
        verdict(r) == (if bytes > allowed {
            Some(refused(413, too_large(allowed as nat)))
        } else {
            None
        }),
{
    if bytes > allowed {
        return Err(refuse_size(allowed));
    }
    Ok(())
}

/// Whether one more direct conversion may be counted.
pub open spec fn usage_verdict(jobs: nat, direct: nat, limit: nat) -> Option<ApiErrorView> {
    if month_usage(jobs, direct) >= limit {
        Some(
            refused(
                429,
                "Das gemeinsame Monatslimit von "@ + digits(limit)
                    + " Konvertierungen ist erreicht."@,
            ),
        )
    } else {
        None
    }
}

/// Whether one more direct conversion may be counted, given the conversions of the month
/// in both directions.
pub fn reserve_conversion_usage(jobs: u32, direct: u32, limit: u32) -> (r: Result<(), ApiError>)
    ensures
        verdict(r) == usage_verdict(jobs as nat, direct as nat, limit as nat),
{
    if !within_limit(jobs, direct, limit) {
        let message = "Das gemeinsame Monatslimit von ".to_owned().concat(
            number(limit as u64).as_str(),
        ).concat(" Konvertierungen ist erreicht.");
        return Err(ApiError { status: 429, message });
    }
    Ok(())
}

/// The plan on which a job runs.
#[derive(Clone, Copy, PartialEq, Eq, Structural, Debug)]
pub enum Tier {
    Free,
    Single,
    Pro,
}

impl Tier {
    pub open spec fn label(self) -> Seq<char> {
        match self {
            Tier::Free => "free"@,
            Tier::Single => "single"@,
            Tier::Pro => "pro"@,
        }
    }

    pub fn name(self) -> (r: &'static str)
        ensures
            r@ == self.label(),
    {
        match self {
            Tier::Free => "free",
            Tier::Single => "single",
            Tier::Pro => "pro",
        }
    }

    /// How many hours a job is kept: for years on a subscription, for a week when paid
    /// alone, and otherwise as set.
    pub open spec fn kept_hours(self, set: int) -> int {
        match self {
            Tier::Free => set,
            Tier::Single => 7int * 24,
            Tier::Pro => 3650int * 24,
        }
    }

    pub fn retention_hours(self, set: i64) -> (r: i64)
        ensures
            r == self.kept_hours(set as int),
    {
        match self {
            Tier::Free => set,
            Tier::Single => 7 * 24,
            Tier::Pro => 3650 * 24,
        }
    }
}

/// The conversions of a month: from printed bills, and from exchange files.
#[derive(Clone, Copy)]
pub struct Usage {
    pub jobs: u32,
    pub direct: u32,
}

impl Usage {
    pub open spec fn total(self) -> nat {
        month_usage(self.jobs as nat, self.direct as nat)
    }
}

/// The plan on which a job may run, if any: for who is signed in the subscription, within
/// its conversions and storage, or a credit; for anyone else the free conversions.
pub open spec fn granted(
    signed_in: bool,
    account: Option<(bool, i64)>,
    free: Usage,
    pro: Usage,
    stored: int,
    size: int,
) -> Option<Tier> {
    if !signed_in {
        if free.total() >= 3 {
            None
        } else {
            Some(Tier::Free)
        }
    } else {
        match account {
            Some((active, credits)) => if active {
                if pro.total() >= 100 || stored + size > PRO_STORAGE_BYTES {
                    None
                } else {
                    Some(Tier::Pro)
                }
            } else if credits > 0 {
                Some(Tier::Single)
            } else {
                None
            },
            None => None,
        }
    }
}

/// The plan on which a job may run, if any.
pub fn reserve_job(
    signed_in: bool,
    account: Option<(bool, i64)>,
    free: Usage,
    pro: Usage,
    stored: i64,
    size: i64,
) -> (r: Option<Tier>)
    ensures
        r == granted(signed_in, account, free, pro, stored as int, size as int),
{
    if !signed_in {
        return if within_limit(free.jobs, free.direct, 3) {
            Some(Tier::Free)
        } else {
            None
        };
    }
    match account {
        Some((active, credits)) => {
            if active {
                if !within_limit(pro.jobs, pro.direct, 100) {
                    return None;
                }
                if stored as i128 + size as i128 > PRO_STORAGE_BYTES as i128 {
                    return None;
                }
                Some(Tier::Pro)
            } else if credits > 0 {
                Some(Tier::Single)
            } else {
                None
            }
        },
        None => None,
    }
}

/// What is said where no plan allows a job.
pub open spec fn quota_message(signed_in: bool) -> Seq<char> {
    if signed_in {
        "Kein aktives Pro-Abo, kein Einzel-Credit oder das Pro-Monatskontingent ist erreicht."@
    } else {
        "Das kostenlose Monatslimit von 3 Dokumenten ist erreicht."@
    }
}

pub fn refuse_quota(signed_in: bool) -> (r: ApiError)
    ensures
        r@ == refused(429, quota_message(signed_in)),
{
    if signed_in {
        ApiError::new(
            429,
            "Kein aktives Pro-Abo, kein Einzel-Credit oder das Pro-Monatskontingent ist erreicht.",
        )
    } else {
        ApiError::new(429, "Das kostenlose Monatslimit von 3 Dokumenten ist erreicht.")
    }
}

/// What a plan changes in the credits of a customer.
pub open spec fn credits_taken(tier: Tier) -> int {
    if tier == Tier::Single {
        1
    } else {
        0
    }
}

pub fn credits_for(tier: Tier) -> (r: i64)
    ensures
        r == credits_taken(tier),
{
    match tier {
        Tier::Single => 1,
        _ => 0,
    }
}

/// What is given back for a job that fails: the credit that it took, once.
pub open spec fn credits_returned(tier: Seq<char>, status: Seq<char>) -> int {
    if tier == "single"@ && status != "failed"@ {
        1
    } else {
        0
    }
}

pub fn refund_for(tier: &str, status: &str) -> (r: i64)
    ensures
        r == credits_returned(tier@, status@),
{
    if same(tier, "single") && !same(status, "failed") {
        1
    } else {
        0
    }
}

/// A job takes a credit only from who has one, so that credits do not fall below zero.
pub proof fn law_credits_suffice(
    signed_in: bool,
    account: Option<(bool, i64)>,
    free: Usage,
    pro: Usage,
    stored: int,
    size: int,
)
    requires
        granted(signed_in, account, free, pro, stored, size) is Some,
        account is Some ==> (account->0).1 >= 0,
    ensures
        credits_taken(granted(signed_in, account, free, pro, stored, size)->0) <= (match account {
            Some((_, credits)) => credits as int,
            None => 0,
        }),
{
}

/// A job that fails costs nothing: what it took is given back, and given back once.
pub proof fn law_failed_job_costs_nothing(tier: Tier, status: Seq<char>)
    requires
        status != "failed"@,
    ensures
        credits_returned(tier.label(), status) == credits_taken(tier),
        credits_returned(tier.label(), "failed"@) == 0,
{
    reveal_strlit("free");
    reveal_strlit("single");
    reveal_strlit("pro");
    assert("free"@.len() == 4);
    assert("single"@.len() == 6);
    assert("pro"@.len() == 3);
}

/// Whether a position has a price.
pub open spec fn has_price(p: PositionView) -> bool {
    p.unit_price is Some || p.total_price is Some
}

/// How many positions have a price.
pub open spec fn priced_count(v: Seq<PositionView>) -> nat
    decreases v.len(),
{
    if v.len() == 0 {
        0
    } else {
        priced_count(v.drop_last()) + if has_price(v.last()) {
            1nat
        } else {
            0nat
        }
    }
}

pub fn count_positions(nodes: &Vec<Node>) -> (r: usize)
    ensures
        r == positions_of(node_views(nodes@)).len(),
{
    let all = positions(nodes);
    assert(all@.len() == ref_views(all@).len());
    all.len()
}

pub fn count_priced_positions(nodes: &Vec<Node>) -> (r: usize)
    ensures
        r == priced_count(positions_of(node_views(nodes@))),
{
    let all = positions(nodes);
    let ghost views = positions_of(node_views(nodes@));
    assert(all@.len() == ref_views(all@).len());
    let mut count: usize = 0;
    let mut i: usize = 0;
    assert(views.take(0) =~= seq![]);
    while i < all.len()
        invariant
            i <= all@.len() == views.len(),
            views == ref_views(all@),
            count <= i,
            count == priced_count(views.take(i as int)),
        decreases all@.len() - i,
    {
        assert(views.take(i + 1).drop_last() =~= views.take(i as int));
        assert(views.take(i + 1).last() == all@[i as int]@);
        if all[i].unit_price.is_some() || all[i].total_price.is_some() {
            count = count + 1;
        }
        i = i + 1;
    }
    assert(views.take(all@.len() as int) =~= views);
    count
}

pub fn has_prices(nodes: &Vec<Node>) -> (r: bool)
    ensures
        r == (priced_count(positions_of(node_views(nodes@))) > 0),
{
    count_priced_positions(nodes) > 0
}

/// How many titles say something.
pub open spec fn named_count(titles: Seq<Seq<char>>) -> nat
    decreases titles.len(),
{
    if titles.len() == 0 {
        0
    } else {
        named_count(titles.drop_last()) + if trim(titles.last()).len() > 0 {
            1nat
        } else {
            0nat
        }
    }
}

pub fn count_named_sections(nodes: &Vec<Node>) -> (r: usize)
    ensures
        r == named_count(titles_of(node_views(nodes@))),
{
    let all = heading_titles(nodes);
    let ghost views = titles_of(node_views(nodes@));
    assert(all@.len() == texts(all@).len());
    let mut count: usize = 0;
    let mut i: usize = 0;
    assert(views.take(0) =~= seq![]);
    while i < all.len()
        invariant
            i <= all@.len() == views.len(),
            views == texts(all@),
            count <= i,
            count == named_count(views.take(i as int)),
        decreases all@.len() - i,
    {
        assert(views.take(i + 1).drop_last() =~= views.take(i as int));
        assert(views.take(i + 1).last() == all@[i as int]@);
        if !trimmed(all[i].as_str()).as_str().is_empty() {
            count = count + 1;
        }
        i = i + 1;
    }
    assert(views.take(all@.len() as int) =~= views);
    count
}

pub fn count_named_areas(nodes: &Vec<Node>) -> (r: usize)
    ensures
        r == named_count(titles_of(node_views(nodes@))),
{
    count_named_sections(nodes)
}

/// Whether the pages of a bill were read from pictures.
pub open spec fn recognized(warnings: Seq<Seq<char>>) -> bool {
    exists|i: int| 0 <= i < warnings.len() && "OCR-"@.is_prefix_of(#[trigger] warnings[i])
}

fn was_recognized(warnings: &Vec<String>) -> (r: bool)
    ensures
        r == recognized(texts(warnings@)),
{
    let ghost all = texts(warnings@);
    let mut i: usize = 0;
    while i < warnings.len()
        invariant
            i <= warnings@.len() == all.len(),
            all == texts(warnings@),
            forall|j: int| 0 <= j < i ==> !"OCR-"@.is_prefix_of(#[trigger] all[j]),
        decreases warnings@.len() - i,
    {
        assert(all[i as int] == warnings@[i as int]@);
        if starts_with(warnings[i].as_str(), "OCR-") {
            return true;
        }
        i = i + 1;
    }
    false
}

/// Whether what was read looks like a bill, before anything is charged for it.
pub open spec fn preflight_verdict(boq: BoqView, confirmed: bool) -> Option<ApiErrorView> {
    let count = positions_of(boq.roots).len();
    if count == 0 {
        Some(
            refused(
                422,
                "Vorprüfung: Keine Ordnungszahlen oder LV-Positionen gefunden. Das PDF ist möglicherweise nur eingescannt, enthält keine Textebene oder ist kein GAEB-artiges Leistungsverzeichnis. Es wurde kein Credit verwendet. Bitte prüfen Sie die Datei oder laden Sie eine OCR-/durchsuchbare PDF hoch."@,
            ),
        )
    } else if count <= 10 && named_count(titles_of(boq.roots)) == 0 && !confirmed {
        Some(
            refused(
                409,
                "Vorprüfung: "@ + digits(count) + " Position(en), keine Bereichsbezeichnungen"@ + (
                if recognized(boq.warnings) {
                    ", deutsche OCR"@
                } else {
                    ""@
                })
                    + " erkannt. Es wurde noch kein Credit verwendet. Prüfen Sie das Ergebnis und bestätigen Sie anschließend ausdrücklich die Konvertierung."@,
            ),
        )
    } else {
        None
    }
}

pub fn check_preflight(boq: &BillOfQuantities, confirmed: bool) -> (r: Result<(), ApiError>)
    ensures
        verdict(r) == preflight_verdict(boq@, confirmed),
{
    let count = count_positions(&boq.roots);
    if count == 0 {
        return Err(
            ApiError::unprocessable(
                "Vorprüfung: Keine Ordnungszahlen oder LV-Positionen gefunden. Das PDF ist möglicherweise nur eingescannt, enthält keine Textebene oder ist kein GAEB-artiges Leistungsverzeichnis. Es wurde kein Credit verwendet. Bitte prüfen Sie die Datei oder laden Sie eine OCR-/durchsuchbare PDF hoch.",
            ),
        );
    }
    if count <= 10 && count_named_sections(&boq.roots) == 0 && !confirmed {
        let remark = if was_recognized(&boq.warnings) {
            ", deutsche OCR"
        } else {
            ""
        };
        let message = "Vorprüfung: ".to_owned().concat(number(count as u64).as_str()).concat(
            " Position(en), keine Bereichsbezeichnungen",
        ).concat(remark).concat(
            " erkannt. Es wurde noch kein Credit verwendet. Prüfen Sie das Ergebnis und bestätigen Sie anschließend ausdrücklich die Konvertierung.",
        );
        return Err(ApiError { status: 409, message });
    }
    Ok(())
}

/// What can be fetched of a job.
#[verifier::ext_equal]
pub struct OptionView {
    pub format: Seq<char>,
    pub label: Seq<char>,
    pub url: Seq<char>,
}

/// What can be fetched of a job.
pub struct DownloadOption {
    pub format: &'static str,
    pub label: &'static str,
    pub url: String,
}

impl View for DownloadOption {
    type V = OptionView;

    open spec fn view(&self) -> OptionView {
        OptionView { format: self.format@, label: self.label@, url: self.url@ }
    }
}

pub open spec fn option_views(v: Seq<DownloadOption>) -> Seq<OptionView> {
    Seq::new(v.len(), |i: int| v[i]@)
}

/// Where a job that is ready is fetched.
pub open spec fn job_url(id: Seq<char>, token: Seq<char>) -> Seq<char> {
    "/download/"@ + id + "/"@ + token
}

/// Where a job is fetched, if it is ready.
pub open spec fn download_url_of(status: Seq<char>, id: Seq<char>, token: Seq<char>) -> Option<
    Seq<char>,
> {
    if status == "ready"@ {
        Some(job_url(id, token))
    } else {
        None
    }
}

/// What can be fetched of a job: nothing before it is ready, and the priced document only
/// if there is one.
pub open spec fn options_of(status: Seq<char>, id: Seq<char>, token: Seq<char>, priced: bool) -> Seq<
    OptionView,
> {
    let request = OptionView {
        format: "x83"@,
        label: "X83 – Ausschreibung ohne Preise"@,
        url: job_url(id, token) + "/x83"@,
    };
    let offer = OptionView {
        format: "x84"@,
        label: "X84 – Angebot mit Preisen"@,
        url: job_url(id, token) + "/x84"@,
    };
    if status != "ready"@ {
        seq![]
    } else if priced {
        seq![request, offer]
    } else {
        seq![request]
    }
}

fn url_of(id: &str, token: &str) -> (r: String)
    ensures
        r@ == job_url(id@, token@),
{
    "/download/".to_owned().concat(id).concat("/").concat(token)
}

pub fn download_url(status: &str, id: &str, token: &str) -> (r: Option<String>)
    ensures
        opt_text(r) == download_url_of(status@, id@, token@),
{
    if same(status, "ready") {
        Some(url_of(id, token))
    } else {
        None
    }
}

pub fn download_options(status: &str, id: &str, token: &str, priced: bool) -> (r: Vec<DownloadOption>)
    ensures
        option_views(r@) == options_of(status@, id@, token@, priced),
{
    let mut r: Vec<DownloadOption> = Vec::new();
    if same(status, "ready") {
        r.push(
            DownloadOption {
                format: "x83",
                label: "X83 – Ausschreibung ohne Preise",
                url: url_of(id, token).concat("/x83"),
            },
        );
        if priced {
            r.push(
                DownloadOption {
                    format: "x84",
                    label: "X84 – Angebot mit Preisen",
                    url: url_of(id, token).concat("/x84"),
                },
            );
        }
    }
    assert(option_views(r@) =~= options_of(status@, id@, token@, priced));
    r
}

/// The extension of a document that can be fetched.
pub open spec fn fetched_extension(format: Seq<char>) -> Option<Seq<char>> {
    if ascii_lowercase(format) == "x83"@ {
        Some("x83"@)
    } else if ascii_lowercase(format) == "x84"@ {
        Some("x84"@)
    } else {
        None
    }
}

pub fn download_extension(format: &str) -> (r: Option<&'static str>)
    ensures
        (match r {
            Some(e) => fetched_extension(format@) == Some(e@),
            None => fetched_extension(format@) is None,
        }),
{
    let small = ascii_lowered(format);
    if same(small.as_str(), "x83") {
        Some("x83")
    } else if same(small.as_str(), "x84") {
        Some("x84")
    } else {
        None
    }
}

/// Without a sign-in three conversions a month are free, of either direction. A running
/// subscription allows a hundred of them and two gibibytes of storage; without one a
/// conversion costs a credit. Nothing else runs.
pub proof fn law_plans(
    active: bool,
    credits: i64,
    free: Usage,
    pro: Usage,
    stored: int,
    size: int,
)
    ensures
        granted(false, None, free, pro, stored, size) == (if free.jobs + free.direct < 3 {
            Some(Tier::Free)
        } else {
            None
        }),
        granted(true, Some((true, credits)), free, pro, stored, size) == (if pro.jobs + pro.direct
            < 100 && stored + size <= 2 * 1024 * 1024 * 1024 {
            Some(Tier::Pro)
        } else {
            None
        }),
        granted(true, Some((false, credits)), free, pro, stored, size) == (if credits >= 1 {
            Some(Tier::Single)
        } else {
            None
        }),
        granted(true, None, free, pro, stored, size) is None,
{
}

/// A free job is kept as long as is set, a paid one for seven days, and one of a subscriber
/// for ten years of 365 days.
pub proof fn law_kept_hours(set: int)
    ensures
        Tier::Free.kept_hours(set) == set,
        Tier::Single.kept_hours(set) == 168,
        Tier::Pro.kept_hours(set) == 87600,
{
}

/// An upload is taken if and only if a name of two characters and an address are given,
/// consent is given, and the file starts as a PDF document and is no larger than allowed;
/// who has paid gives the address of the purchase.
pub proof fn law_upload_taken(
    form: UploadView,
    free_limit: nat,
    paid_limit: nat,
    access: Option<Seq<char>>,
)
    ensures
        upload_verdict(form, free_limit, paid_limit, access) is None <==> {
            &&& form.contact_name.len() >= 2
            &&& email_shaped(form.email)
            &&& form.consent
            &&& form.pdf.len() >= 5
            &&& form.pdf.take(5) == seq![0x25u8, 0x50, 0x44, 0x46, 0x2d]
            &&& form.pdf.len() <= (if access is Some {
                paid_limit
            } else {
                free_limit
            })
            &&& access is Some ==> access->0 == form.email
        },
        form.contact_name.len() >= 2 && email_shaped(form.email) && form.consent && form.pdf.len()
            > 0 && access is None && form.pdf.len() > free_limit ==> upload_verdict(
            form,
            free_limit,
            paid_limit,
            access,
        )->0.status == 413,
{
    if form.pdf.len() >= 5 {
        let head = form.pdf.take(5);
        assert(head[0] == form.pdf[0] && head[1] == form.pdf[1] && head[2] == form.pdf[2] && head[3]
            == form.pdf[3] && head[4] == form.pdf[4]);
        if is_pdf(form.pdf) {
            assert(head =~= seq![0x25u8, 0x50, 0x44, 0x46, 0x2d]);
        }
    }
}

/// A bill without positions is refused before anything is charged; one with at most ten
/// positions and no title needs a confirmation; any other goes on.
pub proof fn law_preflight(boq: BoqView, confirmed: bool)
    ensures
        ({
            let n = positions_of(boq.roots).len();
            let r = preflight_verdict(boq, confirmed);
            &&& n == 0 ==> r is Some && r->0.status == 422
            &&& n > 10 ==> r is None
            &&& n > 0 && confirmed ==> r is None
            &&& n > 0 && n <= 10 && !confirmed && (forall|i: int|
                0 <= i < titles_of(boq.roots).len() ==> trim(#[trigger] titles_of(boq.roots)[i]).len()
                    == 0) ==> r is Some && r->0.status == 409
            &&& n > 0 && (exists|i: int|
                0 <= i < titles_of(boq.roots).len() && trim(#[trigger] titles_of(boq.roots)[i]).len()
                    > 0) ==> r is None
        }),
{
    lemma_named(titles_of(boq.roots));
}

proof fn lemma_named(titles: Seq<Seq<char>>)
    ensures
        named_count(titles) == 0 <==> forall|i: int|
            0 <= i < titles.len() ==> trim(#[trigger] titles[i]).len() == 0,
    decreases titles.len(),
{
    if titles.len() > 0 {
        let front = titles.drop_last();
        lemma_named(front);
        if named_count(titles) == 0 {
            assert forall|i: int| 0 <= i < titles.len() implies trim(#[trigger] titles[i]).len()
                == 0 by {
                if i < front.len() {
                    assert(front[i] == titles[i]);
                }
            }
        } else if trim(titles.last()).len() > 0 {
            assert(trim(titles[titles.len() - 1]).len() > 0);
        } else {
            let i = choose|i: int| 0 <= i < front.len() && trim(#[trigger] front[i]).len() > 0;
            assert(titles[i] == front[i]);
        }
    }
}

/// A bill has prices if and only if one of its positions has a unit price or a total.
pub proof fn law_prices_found(v: Seq<PositionView>)
    ensures
        priced_count(v) > 0 <==> exists|i: int|
            0 <= i < v.len() && ((#[trigger] v[i]).unit_price is Some || v[i].total_price is Some),
        priced_count(v) <= v.len(),
    decreases v.len(),
{
    if v.len() > 0 {
        let front = v.drop_last();
        law_prices_found(front);
        if priced_count(front) > 0 {
            let i = choose|i: int|
                0 <= i < front.len() && ((#[trigger] front[i]).unit_price is Some
                    || front[i].total_price is Some);
            assert(v[i] == front[i]);
        } else if has_price(v.last()) {
            assert(has_price(v[v.len() - 1]));
        } else {
            assert forall|i: int| 0 <= i < v.len() implies !((#[trigger] v[i]).unit_price is Some
                || v[i].total_price is Some) by {
                if i < front.len() {
                    assert(front[i] == v[i]);
                }
            }
        }
    }
}

/// Nothing can be fetched of a job before it is ready. Then there is the request, and the
/// offer where there are prices, each under an address of the job's own.
pub proof fn law_downloads(status: Seq<char>, id: Seq<char>, token: Seq<char>, priced: bool)
    ensures
        status != "ready"@ ==> options_of(status, id, token, priced).len() == 0 && download_url_of(
            status,
            id,
            token,
        ) is None,
        status == "ready"@ ==> ({
            let all = options_of(status, id, token, priced);
            let url = "/download/"@ + id + "/"@ + token;
            &&& download_url_of(status, id, token) == Some(url)
            &&& all.len() == (if priced {
                2nat
            } else {
                1nat
            })
            &&& all[0].format == "x83"@ && all[0].url == url + "/x83"@
            &&& priced ==> all[1].format == "x84"@ && all[1].url == url + "/x84"@
        }),
{
}

} // verus!
