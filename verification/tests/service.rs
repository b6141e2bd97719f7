use gaeb_toolkit::accounts::{account_access_email_allowed, mask_profanity};
use gaeb_toolkit::billing::verify_stripe_signature;
use gaeb_toolkit::events::{apply_stripe_event, purchase, Account, Effect};
use gaeb_toolkit::filenames::{output_filename, supported_gaeb_filename};
use gaeb_toolkit::imprint::extract_imprint_sections;
use gaeb_toolkit::jobs::reserve_conversion_usage;
use hmac::{Hmac, Mac};
use sha2::Sha256;

#[test]
fn imprint_extraction_omits_page_title_and_following_company_area() {
    let html = r#"
      <h1>Impressum</h1>
      <div class="thrv_text_element"><h3>Seitenbetreiber/ Verantwortlicher</h3>Hawk Vision GmbH<br>Tulpenweg 2</div>
      <div class="thrv_text_element"><h3>Kontaktdaten</h3><p>office@example.de<br>Telefon: 123</p></div>
      <div class="thrv_text_element"><h3>Unternehmensangaben</h3><p>Amtsgericht Jena</p></div>
      <div class="thrv_text_element"><h3>Quellenangaben</h3><p>finden Sie hier</p></div>
      <div class="thrv_text_element"><h3>unsere Unternehmensbereiche</h3><p>Nicht übernehmen</p></div>
    "#;
    let sections = extract_imprint_sections(html).unwrap();
    assert_eq!(sections.len(), 4);
    assert_eq!(sections[0].heading, "Seitenbetreiber/ Verantwortlicher");
    assert_eq!(sections[0].lines, ["Hawk Vision GmbH", "Tulpenweg 2"]);
    assert!(sections.iter().all(|section| section.heading != "Impressum"));
    assert!(sections
        .iter()
        .all(|section| !section.lines.iter().any(|line| line.contains("Nicht übernehmen"))));
}

#[test]
fn review_moderation_masks_profanity_without_changing_other_words() {
    assert_eq!(mask_profanity("Das ist scheiße, aber lösbar."), "Das ist *******, aber lösbar.");
}

#[test]
fn output_filename_is_ascii_safe_for_http_headers() {
    assert_eq!(
        output_filename("Angebot Außenputz Prüffläche.pdf"),
        "Angebot Aussenputz Pruefflaeche.x83"
    );
}

#[test]
fn accepts_supported_gaeb_extensions_case_insensitively() {
    for filename in [
        "altbestand.d81",
        "altbestand.D83",
        "da2000.p81",
        "da2000.P83",
        "lv.x80",
        "lv.X83",
        "angebot.x84",
        "auftrag.x86",
        "rechnung.x89",
        "lv.xml",
    ] {
        assert!(supported_gaeb_filename(filename), "{filename}");
    }
    for filename in ["lv.p84", "lv.pdf", "lv", "lv.exe"] {
        assert!(!supported_gaeb_filename(filename), "{filename}");
    }
}

#[test]
fn stripe_signature_accepts_valid_payload_and_rejects_changes() {
    let timestamp: i64 = chrono::Utc::now().timestamp();
    let body = br#"{"id":"evt_test","type":"checkout.session.completed"}"#;
    let secret = "whsec_test_secret";
    let signed = format!("{timestamp}.{}", String::from_utf8_lossy(body));
    let mut mac = Hmac::<Sha256>::new_from_slice(secret.as_bytes()).unwrap();
    mac.update(signed.as_bytes());
    let signature = mac
        .finalize()
        .into_bytes()
        .iter()
        .map(|byte| format!("{byte:02x}"))
        .collect::<String>();
    let header = format!("t={timestamp},v1={signature}");

    assert!(verify_stripe_signature(&header, body, secret, timestamp).is_ok());
    assert!(verify_stripe_signature(&header, b"changed", secret, timestamp).is_err());
    assert!(verify_stripe_signature(&header, body, "another", timestamp).is_err());
    assert!(verify_stripe_signature(&header, body, secret, timestamp + 301).is_err());
    assert!(verify_stripe_signature(&header, body, secret, timestamp + 300).is_ok());
}

/// The accounts as the server keeps them: one row, and the events it has processed.
struct Ledger {
    processed: Vec<String>,
    email: String,
    account: Option<Account>,
}

impl Ledger {
    /// The address of the buyer, where the event was a purchase.
    fn apply(&mut self, id: &str, kind: &str, payload: &str) -> Option<String> {
        let processed = self.processed.iter().any(|known| known == id);
        let effect = apply_stripe_event(processed, kind, payload).unwrap();
        self.processed.push(id.to_owned());
        match effect {
            Effect::Purchased(bought) => {
                self.email = bought.email.clone();
                self.account = purchase(&self.account, &bought);
                Some(bought.email)
            }
            _ => None,
        }
    }
}

#[test]
fn paid_checkout_grants_exactly_one_credit_even_when_repeated() {
    let payload = r#"{
      "id":"evt_paid_once",
      "type":"checkout.session.completed",
      "data":{"object":{
        "payment_status":"paid",
        "customer":"cus_test",
        "customer_details":{"email":"BUYER@EXAMPLE.DE"},
        "metadata":{"offer":"single"}
      }}
    }"#;
    let mut ledger = Ledger { processed: Vec::new(), email: String::new(), account: None };

    let first = ledger.apply("evt_paid_once", "checkout.session.completed", payload);
    let repeated = ledger.apply("evt_paid_once", "checkout.session.completed", payload);

    assert_eq!(first.unwrap(), "buyer@example.de");
    assert!(repeated.is_none());
    assert_eq!(ledger.email, "buyer@example.de");
    assert_eq!(ledger.account.unwrap().single_credits, 1);
}

#[test]
fn account_email_throttle_applies_to_every_access_request() {
    let now = chrono::Utc::now();
    let text = now.to_rfc3339();
    let earlier = (now - chrono::Duration::minutes(3)).to_rfc3339();

    assert!(!account_access_email_allowed(true, &Some(text.clone()), &text));
    assert!(!account_access_email_allowed(false, &None, &text));
    assert!(account_access_email_allowed(true, &Some(earlier), &text));
}

#[test]
fn free_monthly_limit_counts_both_conversion_directions() {
    let jobs: u32 = 1;
    let mut direct: u32 = 0;
    reserve_conversion_usage(jobs, direct, 3).unwrap();
    direct += 1;
    reserve_conversion_usage(jobs, direct, 3).unwrap();
    direct += 1;
    assert!(reserve_conversion_usage(jobs, direct, 3).is_err());
}
