use gaeb_toolkit::accounts::{
    check_admin_hash, cookie_value, hash_token, is_rested, mask_email, may_send_again,
    normalize_email, open_session_cookie, redirect_target, require_admin, valid_email,
    validate_account_registration, validate_review, validate_support_case,
    AccountRegistrationRequest,
};
use gaeb_toolkit::billing::{
    account_document_url, checkout_fields, decode_hex, judge_checkout, judge_portal,
    judge_signature, max_upload_bytes, monthly_limit, monthly_usage, plan_name, read_checkout,
    read_portal, storage_limit, storage_used, stripe_config, valid_checkout_id,
    verify_stripe_signature, StripeConfig, Stored,
};
use gaeb_toolkit::desk::{
    check_resend, check_review, check_test_file, check_test_lab, checkout_state, imprint_answer,
    imprint_is_fresh, is_reviewable, media_type, portal_customer, read_event_head, Fetched,
};
use gaeb_toolkit::events::{apply_stripe_event, is_confirmed, purchase, Account, Effect, Purchase};
use gaeb_toolkit::filenames::{output_filename_for, safe_filename};
use gaeb_toolkit::imprint::ImprintSection;
use gaeb_toolkit::jobs::{
    check_preflight, check_size, count_named_areas, count_positions, count_priced_positions,
    credits_for, download_extension, download_options, download_url, gaeb_conversion_access,
    refund_for, refuse_quota, reserve_conversion_usage, reserve_job, validate_form, GaebUpload,
    Tier, UploadForm, Usage,
};
use gaeb_toolkit::settings::{
    consent_version, digits_setting, env_bool, env_i64, env_usize, offer_config, smtp_config,
    tracking_setting, url_setting,
};
use gaeb_toolkit::web::ApiError;
use gaeb_toolkit::{BillOfQuantities, Node, Position};

fn refusal<T>(r: Result<T, ApiError>) -> (u16, String) {
    match r {
        Ok(_) => panic!("an answer that should have been refused"),
        Err(error) => (error.status, error.message),
    }
}

fn set(value: &str) -> Option<String> {
    Some(value.to_owned())
}

fn upload() -> UploadForm {
    let mut form = UploadForm::new();
    form.set("email", " Kunde@Example.DE ");
    form.set("contact_name", "Anna");
    form.set("consent", "on");
    form.set("unknown", "nothing");
    form.filename = "lv.pdf".into();
    form.pdf = b"%PDF-1.7".to_vec();
    form
}

#[test]
fn refusals_carry_their_status() {
    assert_eq!(ApiError::bad_request("a").status, 400);
    assert_eq!(ApiError::not_found("a").status, 404);
    assert_eq!(ApiError::unprocessable("a").status, 422);
    assert_eq!(ApiError::internal().status, 500);
    assert_eq!(ApiError::upstream("a").status, 502);
    assert_eq!(ApiError::unavailable("a").status, 503);
}

#[test]
fn uploads_are_checked_in_order() {
    let ok = upload();
    assert_eq!(ok.email, "kunde@example.de");
    validate_form(&ok, 100, 1000, &None).unwrap();
    validate_form(&ok, 1, 1000, &set("kunde@example.de")).unwrap();

    let mut form = upload();
    form.contact_name = "A".into();
    assert_eq!(refusal(validate_form(&form, 100, 1000, &None)).1, "Bitte einen Kontaktnamen angeben.");
    let mut form = upload();
    form.email = "kunde".into();
    assert_eq!(
        refusal(validate_form(&form, 100, 1000, &None)).1,
        "Bitte eine gültige E-Mail-Adresse angeben."
    );
    let mut form = upload();
    form.consent = false;
    assert_eq!(refusal(validate_form(&form, 100, 1000, &None)).0, 400);
    let mut form = upload();
    form.pdf = Vec::new();
    assert_eq!(refusal(validate_form(&form, 100, 1000, &None)).1, "Bitte eine PDF-Datei auswählen.");
    assert_eq!(refusal(validate_form(&ok, 100, 1000, &set("other@example.de"))).0, 403);
    let mut form = upload();
    form.pdf = vec![b'%'; 3 * 1024 * 1024];
    assert_eq!(
        refusal(validate_form(&form, 2 * 1024 * 1024, 1, &None)),
        (413, "Diese Zugangsart akzeptiert maximal 2 MB.".to_owned())
    );
    form.pdf = b"plain".to_vec();
    assert_eq!(refusal(validate_form(&form, 100, 1000, &None)).1, "Die Datei ist keine gültige PDF.");
}

#[test]
fn exchange_uploads_are_checked() {
    let mut upload = GaebUpload::new();
    assert_eq!(refusal(upload.validate()).1, "Bitte eine GAEB-Datei auswählen.");
    upload.gaeb = b"x".to_vec();
    upload.set("email", "A@B.de");
    upload.set("consent", "true");
    upload.set("output_format", " X83 ");
    upload.validate().unwrap();
    assert_eq!(upload.email, "a@b.de");
    assert!(upload.consent);
    assert_eq!(upload.output_format, "x83");
    upload.output_format = "docx".into();
    assert_eq!(refusal(upload.validate()).1, "Bitte PDF oder X83 als Ausgabeformat wählen.");
    upload.filename = "lv.doc".into();
    assert!(refusal(upload.validate()).1.starts_with("Nicht unterstütztes Format."));
}

#[test]
fn conversion_terms_depend_on_the_subscription() {
    let terms = gaeb_conversion_access(&set("a@b.de"), "", false, 2, 25).unwrap();
    assert_eq!((terms.tier, terms.allowed_bytes, terms.monthly_limit), ("pro", 25, 100));
    let terms = gaeb_conversion_access(&None, "c@d.de", true, 2, 25).unwrap();
    assert_eq!(terms.email, "c@d.de");
    assert_eq!((terms.tier, terms.allowed_bytes, terms.monthly_limit), ("free", 2, 3));
    assert_eq!(refusal(gaeb_conversion_access(&None, "c", true, 2, 25)).0, 400);
    assert_eq!(refusal(gaeb_conversion_access(&None, "c@d.de", false, 2, 25)).0, 400);
    assert_eq!(refusal(check_size(3, 2)).0, 413);
    check_size(2, 2).unwrap();
    assert_eq!(
        refusal(reserve_conversion_usage(60, 40, 100)),
        (429, "Das gemeinsame Monatslimit von 100 Konvertierungen ist erreicht.".to_owned())
    );
}

#[test]
fn a_job_runs_on_the_plan_that_allows_it() {
    let none = Usage { jobs: 0, direct: 0 };
    let some = Usage { jobs: 2, direct: 1 };
    let full = Usage { jobs: 99, direct: 1 };
    assert!(reserve_job(false, None, none, none, 0, 1) == Some(Tier::Free));
    assert!(reserve_job(false, None, some, none, 0, 1).is_none());
    assert!(reserve_job(true, Some((true, 0)), some, some, 0, 1) == Some(Tier::Pro));
    assert!(reserve_job(true, Some((true, 5)), none, full, 0, 1).is_none());
    assert!(reserve_job(true, Some((true, 0)), none, none, 2147483648, 1).is_none());
    assert!(reserve_job(true, Some((true, 0)), none, none, 2147483647, 1) == Some(Tier::Pro));
    assert!(reserve_job(true, Some((false, 1)), none, none, 0, 1) == Some(Tier::Single));
    assert!(reserve_job(true, Some((false, 0)), none, none, 0, 1).is_none());
    assert!(reserve_job(true, None, none, none, 0, 1).is_none());
    assert_eq!(refuse_quota(false).message, "Das kostenlose Monatslimit von 3 Dokumenten ist erreicht.");
    assert_eq!(refuse_quota(true).status, 429);
    assert_eq!(Tier::Single.retention_hours(24), 168);
    assert_eq!(Tier::Free.retention_hours(24), 24);
    assert_eq!(Tier::Pro.retention_hours(24), 87600);
}

#[test]
fn a_failed_job_gives_back_the_credit_it_took() {
    for tier in [Tier::Free, Tier::Single, Tier::Pro] {
        assert_eq!(credits_for(tier) - refund_for(tier.name(), "processing"), 0);
        assert_eq!(refund_for(tier.name(), "failed"), 0);
    }
    assert_eq!(credits_for(Tier::Single), 1);
}

#[test]
fn preflight_counts_what_was_read() {
    let mut boq = BillOfQuantities::new("lv.pdf");
    let (status, message) = refusal(check_preflight(&boq, true));
    assert_eq!(status, 422);
    assert!(message.starts_with("Vorprüfung: Keine Ordnungszahlen"));
    boq.roots.push(Node {
        positions: vec![Position { oz: "01.01.01".into(), ..Position::default() }],
        ..Node::default()
    });
    boq.warnings.push("OCR-Vorprüfung verwendet".into());
    let (status, message) = refusal(check_preflight(&boq, false));
    assert_eq!(status, 409);
    assert!(message.starts_with(
        "Vorprüfung: 1 Position(en), keine Bereichsbezeichnungen, deutsche OCR erkannt."
    ));
    check_preflight(&boq, true).unwrap();
    boq.roots[0].title = "Titel".into();
    check_preflight(&boq, false).unwrap();
    assert_eq!(count_positions(&boq.roots), 1);
    assert_eq!(count_priced_positions(&boq.roots), 0);
    assert_eq!(count_named_areas(&boq.roots), 1);
}

#[test]
fn downloads_exist_for_finished_jobs() {
    assert_eq!(download_url("ready", "a", "b").unwrap(), "/download/a/b");
    assert!(download_url("queued", "a", "b").is_none());
    let options = download_options("ready", "a", "b", true);
    assert_eq!(options.len(), 2);
    assert_eq!(options[1].url, "/download/a/b/x84");
    assert_eq!(options[1].label, "X84 – Angebot mit Preisen");
    assert_eq!(download_options("ready", "a", "b", false).len(), 1);
    assert!(download_options("failed", "a", "b", true).is_empty());
    assert_eq!(download_extension("X84"), Some("x84"));
    assert_eq!(download_extension("pdf"), None);
    assert_eq!(account_document_url("7", "ready").unwrap(), "/api/account/documents/7/download");
    assert!(account_document_url("7", "failed").is_none());
}

#[test]
fn addresses_are_checked_and_masked() {
    assert_eq!(normalize_email(" Ä@Example.DE "), "ä@example.de");
    assert!(valid_email("a@b.de"));
    for wrong in ["a", "@b.de", "a@b", "a@.de", "a@b."] {
        assert!(!valid_email(wrong), "{wrong}");
    }
    assert_eq!(mask_email("anna@b.de"), "a***@b.de");
    assert_eq!(mask_email("@b.de"), "****@b.de");
    assert_eq!(mask_email("nothing"), "");
}

#[test]
fn tokens_are_hashed() {
    assert_eq!(
        hash_token("abc"),
        "ba7816bf8f01cfea414140de5dae2223b00361a396177a9cb410ff61f20015ad"
    );
}

#[test]
fn the_operator_is_known_by_a_token() {
    let stored = Some(hash_token("secret"));
    require_admin(&stored, "secret").unwrap();
    assert_eq!(refusal(require_admin(&stored, "other")).0, 401);
    assert_eq!(refusal(require_admin(&None, "secret")).0, 404);
    check_admin_hash(&set("aa"), "aa").unwrap();
}

#[test]
fn cookies_open_and_name_a_session() {
    assert_eq!(cookie_value("a=1; gaeb_session=xyz; b=2", "gaeb_session").unwrap(), "xyz");
    assert!(cookie_value("a=1", "gaeb_session").is_none());
    assert_eq!(
        open_session_cookie("xyz"),
        "gaeb_session=xyz; Path=/; Max-Age=2592000; HttpOnly; Secure; SameSite=Lax"
    );
    assert_eq!(redirect_target("/konto.html"), "/konto.html");
    assert_eq!(redirect_target("/elsewhere"), "/?billing=ready#preise");
}

#[test]
fn access_links_rest_two_minutes() {
    assert!(is_rested(None));
    assert!(is_rested(Some(120_000)));
    assert!(!is_rested(Some(119_999)));
    let sent = set("2026-01-01T12:00:00+00:00");
    assert!(!may_send_again(&sent, "2026-01-01T12:01:59+00:00"));
    assert!(may_send_again(&sent, "2026-01-01T13:02:00+01:00"));
    assert!(may_send_again(&set("gestern"), "2026-01-01T12:00:00+00:00"));
    let state = checkout_state("paid", &sent, "2026-01-01T12:01:00+00:00");
    assert!(state.access_ready && !state.can_resend);
    assert_eq!(refusal(check_resend(state)).0, 429);
    let state = checkout_state("paid", &None, "2026-01-01T12:01:00+00:00");
    check_resend(state).unwrap();
    let state = checkout_state("pending", &None, "2026-01-01T12:01:00+00:00");
    assert!(!state.access_ready && !state.can_resend);
}

#[test]
fn accounts_need_a_full_address() {
    let mut request = AccountRegistrationRequest {
        email: " A@B.de".into(),
        name: "Anna".into(),
        company: String::new(),
        street: "Weg 1".into(),
        postal_code: "07743".into(),
        city: "Jena".into(),
        country: "DE".into(),
    };
    assert_eq!(validate_account_registration(&request).unwrap(), "a@b.de");
    request.city = " J ".into();
    assert_eq!(
        refusal(validate_account_registration(&request)).1,
        "Bitte die vollständige Rechnungsanschrift angeben."
    );
    request.email = "a".into();
    assert_eq!(
        refusal(validate_account_registration(&request)).1,
        "Bitte eine gültige E-Mail-Adresse angeben."
    );
}

#[test]
fn reviews_and_support_cases_are_checked() {
    validate_review(5, "gut").unwrap();
    assert_eq!(refusal(validate_review(6, "gut")).1, "Bitte 1 bis 5 Sterne wählen.");
    assert_eq!(refusal(validate_review(0, "gut")).0, 400);
    assert_eq!(refusal(validate_review(3, &"x".repeat(2001))).1, "Die Bewertung ist zu lang.");
    validate_support_case("Frage", "Wie geht das hier?").unwrap();
    assert_eq!(refusal(validate_support_case("a", "Wie geht das hier?")).0, 400);
    assert_eq!(refusal(validate_support_case("Frage", "kurz")).0, 400);
    assert!(is_reviewable("ready", "single"));
    assert!(!is_reviewable("ready", "free"));
    assert!(!is_reviewable("failed", "pro"));
    check_review(true, false).unwrap();
    assert_eq!(refusal(check_review(false, true)).0, 403);
    assert_eq!(refusal(check_review(true, true)).0, 409);
}

#[test]
fn plans_have_names_and_limits() {
    assert_eq!(plan_name(true, 3), "pro");
    assert_eq!(plan_name(false, 3), "single");
    assert_eq!(plan_name(false, 0), "free");
    assert_eq!(max_upload_bytes(false, 1, 2, 25), 25);
    assert_eq!(max_upload_bytes(false, 0, 2, 25), 2);
    assert_eq!(monthly_limit(true), 100);
    assert_eq!(monthly_limit(false), 3);
    assert_eq!(storage_limit(true), 2147483648);
    assert_eq!(storage_limit(false), 0);
    assert_eq!(monthly_usage(u32::MAX, 1), u32::MAX);
    assert_eq!(monthly_usage(2, 1), 3);
    let stored = vec![
        Stored { status: "ready".into(), size_bytes: 5 },
        Stored { status: "failed".into(), size_bytes: 7 },
        Stored { status: "queued".into(), size_bytes: 11 },
    ];
    assert_eq!(storage_used(&stored), Some(16));
}

fn config() -> StripeConfig {
    stripe_config(
        &set(" sk_1 "),
        &set("whsec_1"),
        &set("price_1"),
        &set("price_2"),
        &set("https://a.de//"),
    )
    .unwrap()
}

#[test]
fn the_payment_service_needs_every_setting() {
    let config = config();
    assert_eq!(config.secret_key, "sk_1");
    assert_eq!(config.public_base_url, "https://a.de");
    assert!(stripe_config(&set("pk_1"), &set("whsec_1"), &set("price_1"), &set("price_2"), &set("https://a.de")).is_none());
    assert!(stripe_config(&set("sk_1"), &None, &set("price_1"), &set("price_2"), &set("https://a.de")).is_none());
    assert!(stripe_config(&set("sk_1"), &set("whsec_1"), &set("price_1"), &set("price_2"), &set("http://a.de")).is_none());
}

#[test]
fn a_checkout_names_price_and_addresses() {
    let fields = checkout_fields(&config(), "single", " A@B.de ").unwrap();
    let value = |name: &str| fields.iter().find(|f| f.0 == name).map(|f| f.1.as_str());
    assert_eq!(value("mode"), Some("payment"));
    assert_eq!(value("line_items[0][price]"), Some("price_1"));
    assert_eq!(value("customer_email"), Some("a@b.de"));
    assert_eq!(
        value("success_url"),
        Some("https://a.de/checkout-erfolg.html?session_id={CHECKOUT_SESSION_ID}")
    );
    assert_eq!(value("customer_creation"), Some("always"));
    let fields = checkout_fields(&config(), "pro", "a@b.de").unwrap();
    assert!(fields.iter().any(|f| f.0 == "mode" && f.1 == "subscription"));
    assert!(!fields.iter().any(|f| f.0 == "customer_creation"));
    assert_eq!(refusal(checkout_fields(&config(), "gold", "a@b.de")).1, "Unbekanntes Angebot.");
    assert_eq!(refusal(checkout_fields(&config(), "pro", "a")).0, 400);
}

#[test]
fn replies_of_the_payment_service_are_read() {
    let checkout = read_checkout(true, r#"{"url":"https://pay","id":"cs_1"}"#).unwrap();
    assert_eq!(checkout.url, "https://pay");
    assert_eq!(checkout.session_id, "cs_1");
    assert_eq!(refusal(read_checkout(true, "no json")).1, "Stripe hat eine ungültige Antwort geliefert.");
    assert_eq!(refusal(read_checkout(false, "{}")).1, "Der Stripe-Checkout konnte nicht geöffnet werden.");
    assert_eq!(refusal(read_checkout(true, r#"{"id":"x"}"#)).1, "Stripe hat keine Checkout-Adresse geliefert.");
    assert_eq!(refusal(read_checkout(true, r#"{"url":"x"}"#)).1, "Stripe hat keine Checkout-ID geliefert.");
    assert_eq!(refusal(judge_checkout(true, true, set("u"), None)).0, 502);
    assert_eq!(read_portal(r#"{"url":"https://portal"}"#).unwrap(), "https://portal");
    assert_eq!(refusal(read_portal("")).1, "Stripe hat ungültig geantwortet.");
    assert_eq!(refusal(judge_portal(true, None)).1, "Das Kundenportal konnte nicht geöffnet werden.");
    assert!(valid_checkout_id("cs_test"));
    assert!(!valid_checkout_id("test"));
    assert!(!valid_checkout_id(&format!("cs_{}", "x".repeat(253))));
    assert_eq!(portal_customer(set("cus_1")).unwrap(), "cus_1");
    assert_eq!(refusal(portal_customer(set(""))).0, 400);
    assert_eq!(refusal(portal_customer(None)).0, 400);
}

#[test]
fn signatures_are_judged() {
    judge_signature(Some(1000), 1300, true).unwrap();
    assert_eq!(refusal(judge_signature(None, 0, true)).1, "Ungültige Stripe-Signatur.");
    assert_eq!(refusal(judge_signature(Some(1000), 1301, true)).1, "Abgelaufene Stripe-Signatur.");
    assert_eq!(refusal(judge_signature(Some(1301), 1000, true)).1, "Abgelaufene Stripe-Signatur.");
    assert_eq!(refusal(judge_signature(Some(1000), 1000, false)).1, "Stripe-Signatur nicht gültig.");
    assert_eq!(decode_hex("0aFf"), Ok(vec![10, 255]));
    assert_eq!(decode_hex("0a1"), Err(()));
    assert_eq!(decode_hex("zz"), Err(()));
    assert!(verify_stripe_signature("t=5,v1=00", b"x", "whsec", 5).is_err());
}

#[test]
fn events_are_filed_under_their_number() {
    let head = read_event_head(br#"{"id":"evt_1","type":"invoice.paid"}"#).unwrap();
    assert_eq!((head.id.as_str(), head.kind.as_str()), ("evt_1", "invoice.paid"));
    assert_eq!(read_event_head(br#"{"id":"evt_1"}"#).unwrap().kind, "unknown");
    assert_eq!(refusal(read_event_head(b"{}")).1, "Stripe-Ereignis ohne ID.");
    assert_eq!(refusal(read_event_head(b"[")).1, "Ungültiges Stripe-Ereignis.");
    assert_eq!(refusal(read_event_head(&[0xff])).1, "Ungültiges Stripe-Ereignis.");
}

#[test]
fn events_change_subscriptions() {
    let payload = r#"{"data":{"object":{"customer":"cus_1"}}}"#;
    assert!(matches!(
        apply_stripe_event(false, "invoice.paid", payload),
        Ok(Effect::Subscription(customer, true)) if customer == "cus_1"
    ));
    assert!(matches!(
        apply_stripe_event(false, "customer.subscription.deleted", payload),
        Ok(Effect::Subscription(_, false))
    ));
    assert!(matches!(apply_stripe_event(true, "invoice.paid", payload), Ok(Effect::Nothing)));
    assert!(matches!(apply_stripe_event(false, "other", payload), Ok(Effect::Nothing)));
    assert!(apply_stripe_event(false, "invoice.paid", "{").is_err());
    let unpaid = r#"{"data":{"object":{"payment_status":"unpaid"}}}"#;
    assert!(matches!(
        apply_stripe_event(false, "checkout.session.completed", unpaid),
        Ok(Effect::Nothing)
    ));
    let nameless = r#"{"data":{"object":{"payment_status":"paid"}}}"#;
    let error = match apply_stripe_event(false, "checkout.session.completed", nameless) {
        Err(error) => error.message,
        Ok(_) => String::new(),
    };
    assert_eq!(error, "Stripe-Checkout enthält keine E-Mail-Adresse");
    assert!(is_confirmed("pro") && is_confirmed("single") && !is_confirmed("gold"));
}

#[test]
fn a_purchase_only_adds() {
    let before = Account {
        customer_id: "cus_1".into(),
        subscription_id: "sub_1".into(),
        pro_active: true,
        single_credits: 2,
    };
    let bought = Purchase {
        checkout_id: "cs_1".into(),
        email: "a@b.de".into(),
        offer: "single".into(),
        customer_id: String::new(),
        subscription_id: "sub_2".into(),
    };
    let after = purchase(&Some(before), &bought).unwrap();
    assert_eq!(after.customer_id, "cus_1");
    assert_eq!(after.subscription_id, "sub_2");
    assert!(after.pro_active);
    assert_eq!(after.single_credits, 3);
    let full = Account {
        customer_id: String::new(),
        subscription_id: String::new(),
        pro_active: false,
        single_credits: i64::MAX,
    };
    assert!(purchase(&Some(full), &bought).is_none());
}

#[test]
fn the_test_laboratory_takes_pdf_files() {
    check_test_lab(true).unwrap();
    assert_eq!(refusal(check_test_lab(false)).0, 404);
    check_test_file(b"%PDF-1.4", 8).unwrap();
    assert_eq!(refusal(check_test_file(b"", 8)).1, "Bitte eine gültige PDF-Datei auswählen.");
    assert_eq!(
        refusal(check_test_file(b"%PDF-1.4", 7)),
        (413, "Eine Testdatei darf maximal 0 MB groß sein.".to_owned())
    );
    assert_eq!(media_type("x83"), "application/xml; charset=utf-8");
    assert_eq!(media_type("pdf"), "application/pdf");
}

#[test]
fn the_imprint_is_kept_six_hours() {
    assert!(imprint_is_fresh(21_599));
    assert!(!imprint_is_fresh(21_600));
    let kept = Some(vec![ImprintSection { heading: "H".into(), lines: vec!["l".into()] }]);
    assert_eq!(imprint_answer(&Fetched::Failed, kept).unwrap()[0].heading, "H");
    assert_eq!(refusal(imprint_answer(&Fetched::Failed, None)).0, 502);
    assert_eq!(refusal(imprint_answer(&Fetched::Unreadable, Some(Vec::new()))).0, 502);
    assert_eq!(refusal(imprint_answer(&Fetched::Page("<p>".into()), Some(Vec::new()))).0, 502);
}

#[test]
fn settings_have_defaults() {
    assert!(env_bool(&set(" Yes "), false));
    assert!(!env_bool(&set("off"), true));
    assert!(env_bool(&set("perhaps"), true));
    assert_eq!(env_usize(&set("12"), 5), 12);
    assert_eq!(env_usize(&set("-12"), 5), 5);
    assert_eq!(env_i64(&set("-12"), 5), -12);
    assert_eq!(env_i64(&None, 5), 5);
    let offer = offer_config(&set("500"), &None, &set("  "));
    assert_eq!((offer.single_net_cents, offer.pro_net_cents), (500, 1900));
    assert!(offer.banner.is_none());
    assert_eq!(tracking_setting(&set(" GTM-AB1 "), "GTM-").unwrap(), "GTM-AB1");
    assert!(tracking_setting(&set("GTM-ab"), "GTM-").is_none());
    assert_eq!(digits_setting(&set("123")).unwrap(), "123");
    assert!(digits_setting(&set("12a")).is_none());
    assert!(url_setting(&set("https://a b")).is_none());
    assert_eq!(consent_version(&set(" v 2.1 ")), "v21");
    assert_eq!(consent_version(&None), "1");
    let smtp = smtp_config(&set("mail.de"), &set("a@b.de"), &set("x"), &None, &None).unwrap();
    assert_eq!((smtp.port, smtp.username.as_str()), (587, ""));
    assert!(smtp_config(&set(" "), &set("a@b.de"), &None, &None, &None).is_none());
}

#[test]
fn safe_names_stay_safe() {
    assert_eq!(safe_filename("../geheim/Ärger?.pdf"), "Aerger.pdf");
    assert_eq!(safe_filename("..."), "leistungsverzeichnis.pdf");
    let name = safe_filename("Größe (2).pdf");
    assert_eq!(safe_filename(&name), name);
    assert!(name.is_ascii());
    assert_eq!(output_filename_for("a.b.pdf", "x84"), "a.b.x84");
}
