//! Plans, payments and the events by which they come in.

use crate::accounts::{email_shaped, kept_email, normalize_email, valid_email};
use crate::gaeb2000::{behind, strip_prefix};
use crate::model::opt_text;
use crate::text::{
    chars, lemma_texts_push, long_integer_in, lossy, parse_long_integer, parts, readable, same,
    signed_digits, signed_number, slice, split, starts_with, texts, trim, trimmed,
};
use crate::web::{refused, verdict, ApiError, ApiErrorView};
use vstd::prelude::*;
use vstd::utf8::encode_utf8;

verus! {

/// Access to the payment service.
pub struct StripeConfig {
    pub secret_key: String,
    pub webhook_secret: String,
    pub single_price_id: String,
    pub pro_price_id: String,
    pub public_base_url: String,
}

/// What the access to the payment service is.
#[verifier::ext_equal]
pub struct StripeConfigView {
    pub secret_key: Seq<char>,
    pub webhook_secret: Seq<char>,
    pub single_price_id: Seq<char>,
    pub pro_price_id: Seq<char>,
    pub public_base_url: Seq<char>,
}

impl View for StripeConfig {
    type V = StripeConfigView;

    open spec fn view(&self) -> StripeConfigView {
        StripeConfigView {
            secret_key: self.secret_key@,
            webhook_secret: self.webhook_secret@,
            single_price_id: self.single_price_id@,
            pro_price_id: self.pro_price_id@,
            public_base_url: self.public_base_url@,
        }
    }
}

/// A setting that says something.
pub open spec fn required(value: Option<Seq<char>>) -> Option<Seq<char>> {
    match value {
        Some(s) => if trim(s).len() == 0 {
            None
        } else {
            Some(trim(s))
        },
        None => None,
    }
}

pub fn required_setting(value: &Option<String>) -> (r: Option<String>)
    ensures
        opt_text(r) == required(opt_text(*value)),
{
    match value {
        Some(s) => {
            let t = trimmed(s.as_str());
            if t.as_str().is_empty() {
                None
            } else {
                Some(t)
            }
        },
        None => None,
    }
}

/// An address without slashes at its end.
pub open spec fn without_slashes(s: Seq<char>) -> Seq<char>
    decreases s.len(),
{
    if s.len() > 0 && s.last() == '/' {
        without_slashes(s.drop_last())
    } else {
        s
    }
}

fn cut_slashes(s: &str) -> (r: String)
    ensures
        r@ == without_slashes(s@),
{
    let v = chars(s);
    let mut n: usize = v.len();
    assert(s@.take(n as int) =~= s@);
    while n > 0 && v[n - 1] == '/'
        invariant
            v@ == s@,
            n <= v@.len(),
            without_slashes(s@) == without_slashes(s@.take(n as int)),
        decreases n,
    {
        assert(s@.take(n as int).drop_last() =~= s@.take(n - 1));
        n = n - 1;
    }
    let r = slice(&v, 0, n);
    assert(r@ =~= s@.take(n as int));
    r
}

/// The access to the payment service that settings give: only if all are there and have
/// the right beginnings.
pub open spec fn stripe_access(
    secret_key: Option<Seq<char>>,
    webhook_secret: Option<Seq<char>>,
    single_price_id: Option<Seq<char>>,
    pro_price_id: Option<Seq<char>>,
    public_base_url: Option<Seq<char>>,
) -> Option<StripeConfigView> {
    match (
        required(secret_key),
        required(webhook_secret),
        required(single_price_id),
        required(pro_price_id),
        required(public_base_url),
    ) {
        (Some(key), Some(secret), Some(single), Some(pro), Some(url)) => if "sk_"@.is_prefix_of(key)
            && "whsec_"@.is_prefix_of(secret) && "price_"@.is_prefix_of(single)
            && "price_"@.is_prefix_of(pro) && "https://"@.is_prefix_of(url) {
            Some(
                StripeConfigView {
                    secret_key: key,
                    webhook_secret: secret,
                    single_price_id: single,
                    pro_price_id: pro,
                    public_base_url: without_slashes(url),
                },
            )
        } else {
            None
        },
        _ => None,
    }
}

pub open spec fn stripe_view(v: Option<StripeConfig>) -> Option<StripeConfigView> {
    match v {
        Some(config) => Some(config@),
        None => None,
    }
}

pub fn stripe_config(
    secret_key: &Option<String>,
    webhook_secret: &Option<String>,
    single_price_id: &Option<String>,
    pro_price_id: &Option<String>,
    public_base_url: &Option<String>,
) -> (r: Option<StripeConfig>)
    ensures
        stripe_view(r) == stripe_access(
            opt_text(*secret_key),
            opt_text(*webhook_secret),
            opt_text(*single_price_id),
            opt_text(*pro_price_id),
            opt_text(*public_base_url),
        ),
{
    match (
        required_setting(secret_key),
        required_setting(webhook_secret),
        required_setting(single_price_id),
        required_setting(pro_price_id),
        required_setting(public_base_url),
    ) {
        (Some(key), Some(secret), Some(single), Some(pro), Some(url)) => {
            if !starts_with(key.as_str(), "sk_") || !starts_with(secret.as_str(), "whsec_")
                || !starts_with(single.as_str(), "price_") || !starts_with(pro.as_str(), "price_")
                || !starts_with(url.as_str(), "https://") {
                return None;
            }
            Some(
                StripeConfig {
                    secret_key: key,
                    webhook_secret: secret,
                    single_price_id: single,
                    pro_price_id: pro,
                    public_base_url: cut_slashes(url.as_str()),
                },
            )
        },
        _ => None,
    }
}

/// The value of a hexadecimal sign.
pub open spec fn hex_value(c: char) -> Option<nat> {
    if '0' <= c <= '9' {
        Some((c as int - '0' as int) as nat)
    } else if 'a' <= c <= 'f' {
        Some((c as int - 'a' as int + 10) as nat)
    } else if 'A' <= c <= 'F' {
        Some((c as int - 'A' as int + 10) as nat)
    } else {
        None
    }
}

/// The number that two signs give: two hexadecimal ones, or one behind a plus sign.
pub open spec fn hex_pair(a: char, b: char) -> Option<nat> {
    match (hex_value(a), hex_value(b)) {
        (Some(x), Some(y)) => Some(16 * x + y),
        (None, Some(y)) => if a == '+' {
            Some(y)
        } else {
            None
        },
        _ => None,
    }
}

/// The bytes that hexadecimal signs give, if the text holds nothing else.
pub open spec fn bytes_of_hex(s: Seq<char>) -> Option<Seq<u8>>
    decreases s.len(),
{
    if s.len() == 0 {
        Some(seq![])
    } else if s.len() == 1 {
        None
    } else {
        match (bytes_of_hex(s.drop_last().drop_last()), hex_pair(s[s.len() - 2], s.last())) {
            (Some(before), Some(n)) => Some(before.push(n as u8)),
            _ => None,
        }
    }
}

fn hex_digit(c: char) -> (r: Option<u8>)
    ensures
        (match r {
            Some(n) => hex_value(c) == Some(n as nat) && n < 16,
            None => hex_value(c) is None,
        }),
{
    if '0' <= c && c <= '9' {
        Some((c as u32 - '0' as u32) as u8)
    } else if 'a' <= c && c <= 'f' {
        Some((c as u32 - 'a' as u32 + 10) as u8)
    } else if 'A' <= c && c <= 'F' {
        Some((c as u32 - 'A' as u32 + 10) as u8)
    } else {
        None
    }
}

proof fn lemma_no_hex(s: Seq<char>, n: int, m: int)
    requires
        0 <= n <= m <= s.len(),
        n % 2 == 0,
        bytes_of_hex(s.take(n)) is None,
    ensures
        bytes_of_hex(s.take(m)) is None,
    decreases m,
{
    if n < m {
        if m >= 2 && n <= m - 2 {
            lemma_no_hex(s, n, m - 2);
            assert(s.take(m).drop_last().drop_last() =~= s.take(m - 2));
        } else {
            lemma_odd_hex(s.take(m));
        }
    }
}

proof fn lemma_odd_hex(s: Seq<char>)
    requires
        s.len() % 2 == 1,
    ensures
        bytes_of_hex(s) is None,
    decreases s.len(),
{
    if s.len() > 1 {
        lemma_odd_hex(s.drop_last().drop_last());
    }
}

pub fn decode_hex(value: &str) -> (r: Result<Vec<u8>, ()>)
    ensures
        (match r {
            Ok(bytes) => bytes_of_hex(value@) == Some(bytes@),
            Err(_) => bytes_of_hex(value@) is None,
        }),
{
    let v = chars(value);
    let len: usize = v.len();
    if len % 2 != 0 {
        proof {
            lemma_odd_hex(value@);
        }
        return Err(());
    }
    let mut bytes: Vec<u8> = Vec::new();
    let mut i: usize = 0;
    assert(value@.take(0) =~= seq![]);
    while i < len
        invariant
            v@ == value@,
            len == v@.len(),
            len % 2 == 0,
            i % 2 == 0,
            i <= len,
            bytes_of_hex(value@.take(i as int)) == Some(bytes@),
        decreases len - i,
    {
        let ghost here = value@.take(i + 2);
        assert(here.drop_last().drop_last() =~= value@.take(i as int));
        assert(here[here.len() - 2] == v@[i as int] && here.last() == v@[i + 1]);
        let pair = match (hex_digit(v[i]), hex_digit(v[i + 1])) {
            (Some(x), Some(y)) => Some(16 * x + y),
            (None, Some(y)) => if v[i] == '+' {
                Some(y)
            } else {
                None
            },
            _ => None,
        };
        match pair {
            Some(n) => {
                bytes.push(n);
            },
            None => {
                proof {
                    lemma_no_hex(value@, i + 2, len as int);
                    assert(value@.take(len as int) =~= value@);
                }
                return Err(());
            },
        }
        i = i + 2;
    }
    assert(value@.take(len as int) =~= value@);
    Ok(bytes)
}

/// What stands in a signature header: the time, and the signatures.
#[verifier::ext_equal]
pub struct SignatureView {
    pub timestamp: Option<int>,
    pub signatures: Seq<Seq<char>>,
}

/// The first `n` parts of a signature header.
pub open spec fn signature_until(p: Seq<Seq<char>>, n: nat) -> SignatureView
    decreases n,
{
    if n == 0 {
        SignatureView { timestamp: None, signatures: seq![] }
    } else {
        let before = signature_until(p, (n - 1) as nat);
        match behind(p[n - 1], "t="@) {
            Some(value) => SignatureView { timestamp: long_integer_in(value), ..before },
            None => match behind(p[n - 1], "v1="@) {
                Some(value) => SignatureView {
                    signatures: before.signatures.push(value),
                    ..before
                },
                None => before,
            },
        }
    }
}

pub open spec fn signature_of(header: Seq<char>) -> SignatureView {
    let p = split(header, ',');
    signature_until(p, p.len())
}

/// What is signed: the time, a point and the message.
pub open spec fn signed_text(timestamp: int, body: Seq<u8>) -> Seq<char> {
    signed_digits(timestamp) + "."@ + readable(body)
}

/// The authentication code of a message under a key: HMAC with SHA-256.
pub uninterp spec fn mac_of(key: Seq<u8>, message: Seq<u8>) -> Seq<u8>;

/// `Mac::verify_slice` of `hmac` for HMAC with SHA-256: whether bytes are the
/// authentication code of a message, which depends on key and message alone.
#[verifier::external_body]
fn is_mac(key: &[u8], message: &[u8], code: &[u8]) -> (r: bool)
    ensures
        r == (code@ == mac_of(key@, message@)),
{
    <hmac::Hmac<sha2::Sha256> as hmac::Mac>::new_from_slice(key).is_ok_and(|mac| {
        hmac::Mac::verify_slice(hmac::Mac::chain_update(mac, message), code).is_ok()
    })
}

/// Whether one of the first `n` signatures is that of a message.
pub open spec fn signed_by(signatures: Seq<Seq<char>>, code: Seq<u8>, n: nat) -> bool
    decreases n,
{
    if n == 0 {
        false
    } else {
        signed_by(signatures, code, (n - 1) as nat) || bytes_of_hex(signatures[n - 1]) == Some(code)
    }
}

/// What is answered to a message with this time and this validity of its signature.
pub open spec fn signature_verdict(timestamp: Option<int>, now: int, valid: bool) -> Option<
    ApiErrorView,
> {
    match timestamp {
        None => Some(refused(400, "Ungültige Stripe-Signatur."@)),
        Some(t) => if now - t > 300 || t - now > 300 {
            Some(refused(400, "Abgelaufene Stripe-Signatur."@))
        } else if !valid {
            Some(refused(400, "Stripe-Signatur nicht gültig."@))
        } else {
            None
        },
    }
}

/// What is answered to a message with this time and this validity of its signature.
pub fn judge_signature(timestamp: Option<i64>, now: i64, valid: bool) -> (r: Result<(), ApiError>)
    ensures
        verdict(r) == signature_verdict(
            match timestamp {
                Some(t) => Some(t as int),
                None => None,
            },
            now as int,
            valid,
        ),
{
    match timestamp {
        None => Err(ApiError::bad_request("Ungültige Stripe-Signatur.")),
        Some(t) => {
            let age: i128 = now as i128 - t as i128;
            if age > 300 || age < -300 {
                return Err(ApiError::bad_request("Abgelaufene Stripe-Signatur."));
            }
            if !valid {
                return Err(ApiError::bad_request("Stripe-Signatur nicht gültig."));
            }
            Ok(())
        },
    }
}

/// Whether a message carries a signature of the payment service.
pub open spec fn genuine(signature: SignatureView, body: Seq<u8>, secret: Seq<char>) -> bool {
    match signature.timestamp {
        Some(t) => signed_by(
            signature.signatures,
            mac_of(encode_utf8(secret), encode_utf8(signed_text(t, body))),
            signature.signatures.len(),
        ),
        None => false,
    }
}

fn read_signature(header: &str) -> (r: (Option<i64>, Vec<String>))
    ensures
        signature_of(header@) == (SignatureView {
            timestamp: match r.0 {
                Some(t) => Some(t as int),
                None => None,
            },
            signatures: texts(r.1@),
        }),
{
    broadcast use lemma_texts_push;
    let p = parts(header, ',');
    let ghost all = split(header@, ',');
    assert(p@.len() == texts(p@).len());
    let mut timestamp: Option<i64> = None;
    let mut signatures: Vec<String> = Vec::new();
    let mut i: usize = 0;
    assert(texts(signatures@) =~= seq![]);
    while i < p.len()
        invariant
            i <= p@.len() == all.len(),
            texts(p@) == all,
            signature_until(all, i as nat) == (SignatureView {
                timestamp: match timestamp {
                    Some(t) => Some(t as int),
                    None => None,
                },
                signatures: texts(signatures@),
            }),
        decreases p@.len() - i,
    {
        broadcast use lemma_texts_push;
        assert(all[i as int] == p@[i as int]@);
        if let Some(value) = strip_prefix(p[i].as_str(), "t=") {
            timestamp = parse_long_integer(value.as_str());
        } else if let Some(value) = strip_prefix(p[i].as_str(), "v1=") {
            signatures.push(value);
        }
        i = i + 1;
    }
    (timestamp, signatures)
}

fn is_signed(signatures: &Vec<String>, secret: &str, message: &str) -> (r: bool)
    ensures
        r == signed_by(
            texts(signatures@),
            mac_of(encode_utf8(secret@), encode_utf8(message@)),
            signatures@.len(),
        ),
{
    let ghost all = texts(signatures@);
    let ghost code = mac_of(encode_utf8(secret@), encode_utf8(message@));
    let mut valid = false;
    let mut i: usize = 0;
    while i < signatures.len()
        invariant
            i <= signatures@.len(),
            all == texts(signatures@),
            code == mac_of(encode_utf8(secret@), encode_utf8(message@)),
            valid == signed_by(all, code, i as nat),
        decreases signatures@.len() - i,
    {
        assert(all[i as int] == signatures@[i as int]@);
        if let Ok(expected) = decode_hex(signatures[i].as_str()) {
            if is_mac(secret.as_bytes(), message.as_bytes(), expected.as_slice()) {
                valid = true;
            }
        }
        i = i + 1;
    }
    valid
}

pub fn verify_stripe_signature(signature: &str, body: &[u8], secret: &str, now: i64) -> (r: Result<
    (),
    ApiError,
>)
    ensures
        verdict(r) == signature_verdict(
            signature_of(signature@).timestamp,
            now as int,
            genuine(signature_of(signature@), body@, secret@),
        ),
{
    let (timestamp, signatures) = read_signature(signature);
    assert(signatures@.len() == texts(signatures@).len());
    let valid = match timestamp {
        Some(t) => {
            let message = signed_number(t).concat(".").concat(lossy(body).as_str());
            is_signed(&signatures, secret, message.as_str())
        },
        None => false,
    };
    judge_signature(timestamp, now, valid)
}

/// Whether a text is a JSON document.
pub uninterp spec fn is_json(document: Seq<char>) -> bool;

/// `serde_json::from_str` into a value: whether a text is JSON, which depends on it alone.
#[verifier::external_body]
pub(crate) fn parses(document: &str) -> (r: bool)
    ensures
        r == is_json(document@),
{
    serde_json::from_str::<serde_json::Value>(document).is_ok()
}

/// The text at a place in a JSON document, if the document is one and has a text there.
pub uninterp spec fn json_text(document: Seq<char>, place: Seq<char>) -> Option<Seq<char>>;

/// `Value::pointer` and `Value::as_str` of `serde_json`, on the document that a text
/// gives; what they find depends on the text and the place alone.
#[verifier::external_body]
pub(crate) fn text_at(document: &str, place: &str) -> (r: Option<String>)
    ensures
        opt_text(r) == json_text(document@, place@),
{
    let value = serde_json::from_str::<serde_json::Value>(document).ok()?;
    value.pointer(place).and_then(|found| found.as_str()).map(|found| found.to_owned())
}

/// The name of the plan of a customer.
pub open spec fn plan_of(pro: bool, credits: int) -> Seq<char> {
    if pro {
        "pro"@
    } else if credits > 0 {
        "single"@
    } else {
        "free"@
    }
}

pub fn plan_name(pro: bool, credits: i64) -> (r: &'static str)
    ensures
        r@ == plan_of(pro, credits as int),
{
    if pro {
        "pro"
    } else if credits > 0 {
        "single"
    } else {
        "free"
    }
}

/// How much a customer may upload at once: with a plan that is paid for, more.
pub open spec fn upload_limit(pro: bool, credits: int, free: nat, paid: nat) -> nat {
    if pro || credits > 0 {
        paid
    } else {
        free
    }
}

pub fn max_upload_bytes(pro: bool, credits: i64, free: usize, paid: usize) -> (r: usize)
    ensures
        r == upload_limit(pro, credits as int, free as nat, paid as nat),
{
    if pro || credits > 0 {
        paid
    } else {
        free
    }
}

/// How many conversions a month has, by plan.
pub open spec fn month_limit(pro: bool) -> nat {
    if pro {
        100
    } else {
        3
    }
}

pub fn monthly_limit(pro: bool) -> (r: u32)
    ensures
        r == month_limit(pro),
{
    if pro {
        100
    } else {
        3
    }
}

/// How many bytes a customer with a subscription may keep.
pub const PRO_STORAGE_BYTES: i64 = 2_147_483_648;

pub fn storage_limit(pro: bool) -> (r: i64)
    ensures
        r == (if pro {
            PRO_STORAGE_BYTES as int
        } else {
            0
        }),
{
    if pro {
        PRO_STORAGE_BYTES
    } else {
        0
    }
}

/// The conversions of a month in both directions, as far as they can be counted.
pub open spec fn month_usage(jobs: nat, direct: nat) -> nat {
    if jobs + direct > u32::MAX {
        u32::MAX as nat
    } else {
        jobs + direct
    }
}

pub fn monthly_usage(jobs: u32, direct: u32) -> (r: u32)
    ensures
        r == month_usage(jobs as nat, direct as nat),
{
    if jobs > u32::MAX - direct {
        u32::MAX
    } else {
        jobs + direct
    }
}

/// Whether one more conversion is within a limit. Both directions count.
pub fn within_limit(jobs: u32, direct: u32, limit: u32) -> (r: bool)
    ensures
        r == (month_usage(jobs as nat, direct as nat) < limit),
{
    monthly_usage(jobs, direct) < limit
}

/// What a document is of which the storage is counted.
#[verifier::ext_equal]
pub struct StoredView {
    pub status: Seq<char>,
    pub size_bytes: int,
}

/// A document of a customer.
pub struct Stored {
    pub status: String,
    pub size_bytes: i64,
}

impl View for Stored {
    type V = StoredView;

    open spec fn view(&self) -> StoredView {
        StoredView { status: self.status@, size_bytes: self.size_bytes as int }
    }
}

pub open spec fn stored_views(v: Seq<Stored>) -> Seq<StoredView> {
    Seq::new(v.len(), |i: int| v[i]@)
}

/// The bytes that documents take, without those that failed.
pub open spec fn storage_of(v: Seq<StoredView>) -> int
    decreases v.len(),
{
    if v.len() == 0 {
        0
    } else {
        storage_of(v.drop_last()) + if v.last().status == "failed"@ {
            0
        } else {
            v.last().size_bytes
        }
    }
}

/// The bytes that documents take, without those that failed, if they can be counted.
pub fn storage_used(v: &Vec<Stored>) -> (r: Option<i64>)
    ensures
        (match r {
            Some(n) => n == storage_of(stored_views(v@)),
            None => !(i64::MIN <= storage_of(stored_views(v@)) <= i64::MAX),
        }),
{
    let ghost all = stored_views(v@);
    let len: usize = v.len();
    let mut sum: i128 = 0;
    let mut i: usize = 0;
    assert(all.take(0) =~= seq![]);
    while i < len
        invariant
            i <= len == v@.len(),
            all == stored_views(v@),
            sum == storage_of(all.take(i as int)),
            -0x8000_0000_0000_0000 * i <= sum <= 0x8000_0000_0000_0000 * i,
        decreases len - i,
    {
        assert(all.take(i + 1).drop_last() =~= all.take(i as int));
        assert(all.take(i + 1).last() == v@[i as int]@);
        assert(0x8000_0000_0000_0000 * i + 0x8000_0000_0000_0000 == 0x8000_0000_0000_0000 * (i + 1))
            by (nonlinear_arith);
        assert(0x8000_0000_0000_0000 * (i + 1) <= 0x8000_0000_0000_0000 * 0x1_0000_0000_0000_0000)
            by (nonlinear_arith)
            requires
                i + 1 <= 0x1_0000_0000_0000_0000,
        ;
        if !same(v[i].status.as_str(), "failed") {
            sum = sum + v[i].size_bytes as i128;
        }
        i = i + 1;
    }
    assert(all.take(len as int) =~= all);
    if sum < i64::MIN as i128 || sum > i64::MAX as i128 {
        None
    } else {
        Some(sum as i64)
    }
}

/// Where a customer gets a document that is ready.
pub open spec fn document_url(id: Seq<char>, status: Seq<char>) -> Option<Seq<char>> {
    if status == "ready"@ {
        Some("/api/account/documents/"@ + id + "/download"@)
    } else {
        None
    }
}

pub fn account_document_url(id: &str, status: &str) -> (r: Option<String>)
    ensures
        opt_text(r) == document_url(id@, status@),
{
    if same(status, "ready") {
        Some("/api/account/documents/".to_owned().concat(id).concat("/download"))
    } else {
        None
    }
}

/// What the payment service is asked for: an offer and where the payment leads to.
pub open spec fn checkout_form(
    config: StripeConfigView,
    offer: Seq<char>,
    email: Seq<char>,
) -> Result<Seq<(Seq<char>, Seq<char>)>, ApiErrorView> {
    let address = kept_email(email);
    let base = config.public_base_url;
    let form = |price: Seq<char>, mode: Seq<char>|
        seq![
            ("mode"@, mode),
            ("line_items[0][price]"@, price),
            ("line_items[0][quantity]"@, "1"@),
            ("customer_email"@, address),
            ("success_url"@, base + "/checkout-erfolg.html?session_id={CHECKOUT_SESSION_ID}"@),
            ("cancel_url"@, base + "/?checkout=cancelled#preise"@),
            ("billing_address_collection"@, "required"@),
            ("tax_id_collection[enabled]"@, "true"@),
            ("automatic_tax[enabled]"@, "true"@),
            ("metadata[offer]"@, offer),
        ];
    if !email_shaped(address) {
        Err(refused(400, "Bitte eine gültige E-Mail-Adresse angeben."@))
    } else if offer == "single"@ {
        Ok(form(config.single_price_id, "payment"@).push(("customer_creation"@, "always"@)))
    } else if offer == "pro"@ {
        Ok(form(config.pro_price_id, "subscription"@))
    } else {
        Err(refused(400, "Unbekanntes Angebot."@))
    }
}

pub open spec fn fields_view(v: Seq<(String, String)>) -> Seq<(Seq<char>, Seq<char>)> {
    Seq::new(v.len(), |i: int| (v[i].0@, v[i].1@))
}

pub open spec fn form_outcome(r: Result<Vec<(String, String)>, ApiError>) -> Result<
    Seq<(Seq<char>, Seq<char>)>,
    ApiErrorView,
> {
    match r {
        Ok(fields) => Ok(fields_view(fields@)),
        Err(error) => Err(error@),
    }
}

fn field(name: &str, value: &str) -> (r: (String, String))
    ensures
        r.0@ == name@,
        r.1@ == value@,
{
    (name.to_owned(), value.to_owned())
}

pub fn checkout_fields(config: &StripeConfig, offer: &str, email: &str) -> (r: Result<
    Vec<(String, String)>,
    ApiError,
>)
    ensures
        form_outcome(r) == checkout_form(config@, offer@, email@),
{
    let address = normalize_email(email);
    if !valid_email(address.as_str()) {
        return Err(ApiError::bad_request("Bitte eine gültige E-Mail-Adresse angeben."));
    }
    let single = same(offer, "single");
    if !single && !same(offer, "pro") {
        return Err(ApiError::bad_request("Unbekanntes Angebot."));
    }
    let (price, mode) = if single {
        (config.single_price_id.as_str(), "payment")
    } else {
        (config.pro_price_id.as_str(), "subscription")
    };
    let success = config.public_base_url.clone().concat(
        "/checkout-erfolg.html?session_id={CHECKOUT_SESSION_ID}",
    );
    let cancel = config.public_base_url.clone().concat("/?checkout=cancelled#preise");
    let mut fields: Vec<(String, String)> = Vec::new();
    fields.push(field("mode", mode));
    fields.push(field("line_items[0][price]", price));
    fields.push(field("line_items[0][quantity]", "1"));
    fields.push(field("customer_email", address.as_str()));
    fields.push(field("success_url", success.as_str()));
    fields.push(field("cancel_url", cancel.as_str()));
    fields.push(field("billing_address_collection", "required"));
    fields.push(field("tax_id_collection[enabled]", "true"));
    fields.push(field("automatic_tax[enabled]", "true"));
    fields.push(field("metadata[offer]", offer));
    if single {
        fields.push(field("customer_creation", "always"));
    }
    assert(form_outcome(Ok(fields))->Ok_0 =~= checkout_form(config@, offer@, email@)->Ok_0);
    Ok(fields)
}

/// The address and number of a checkout.
pub struct Checkout {
    pub url: String,
    pub session_id: String,
}

/// What a reply of the payment service to a checkout comes to.
pub open spec fn checkout_result(
    parsed: bool,
    success: bool,
    url: Option<Seq<char>>,
    id: Option<Seq<char>>,
) -> Result<(Seq<char>, Seq<char>), ApiErrorView> {
    if !parsed {
        Err(refused(502, "Stripe hat eine ungültige Antwort geliefert."@))
    } else if !success {
        Err(refused(502, "Der Stripe-Checkout konnte nicht geöffnet werden."@))
    } else if url is None {
        Err(refused(502, "Stripe hat keine Checkout-Adresse geliefert."@))
    } else if id is None {
        Err(refused(502, "Stripe hat keine Checkout-ID geliefert."@))
    } else {
        Ok((url->0, id->0))
    }
}

pub open spec fn checkout_outcome(r: Result<Checkout, ApiError>) -> Result<
    (Seq<char>, Seq<char>),
    ApiErrorView,
> {
    match r {
        Ok(c) => Ok((c.url@, c.session_id@)),
        Err(error) => Err(error@),
    }
}

/// What a reply of the payment service to a checkout comes to, given what stands in it.
pub fn judge_checkout(parsed: bool, success: bool, url: Option<String>, id: Option<String>) -> (r:
    Result<Checkout, ApiError>)
    ensures
        checkout_outcome(r) == checkout_result(parsed, success, opt_text(url), opt_text(id)),
{
    if !parsed {
        return Err(ApiError::upstream("Stripe hat eine ungültige Antwort geliefert."));
    }
    if !success {
        return Err(ApiError::upstream("Der Stripe-Checkout konnte nicht geöffnet werden."));
    }
    match url {
        None => Err(ApiError::upstream("Stripe hat keine Checkout-Adresse geliefert.")),
        Some(url) => match id {
            None => Err(ApiError::upstream("Stripe hat keine Checkout-ID geliefert.")),
            Some(session_id) => Ok(Checkout { url, session_id }),
        },
    }
}

/// What a reply of the payment service to a checkout comes to.
pub fn read_checkout(success: bool, body: &str) -> (r: Result<Checkout, ApiError>)
    ensures
        checkout_outcome(r) == checkout_result(
            is_json(body@),
            success,
            json_text(body@, "/url"@),
            json_text(body@, "/id"@),
        ),
{
    judge_checkout(parses(body), success, text_at(body, "/url"), text_at(body, "/id"))
}

/// What the payment service answers to a request for the customer portal comes to.
pub open spec fn portal_result(parsed: bool, url: Option<Seq<char>>) -> Result<
    Seq<char>,
    ApiErrorView,
> {
    if !parsed {
        Err(refused(502, "Stripe hat ungültig geantwortet."@))
    } else {
        match url {
            None => Err(refused(502, "Das Kundenportal konnte nicht geöffnet werden."@)),
            Some(url) => Ok(url),
        }
    }
}

/// What the payment service answers to a request for the customer portal comes to, given
/// what stands in it.
pub fn judge_portal(parsed: bool, url: Option<String>) -> (r: Result<String, ApiError>)
    ensures
        crate::web::text_or_refusal(r) == portal_result(parsed, opt_text(url)),
{
    if !parsed {
        return Err(ApiError::upstream("Stripe hat ungültig geantwortet."));
    }
    match url {
        None => Err(ApiError::upstream("Das Kundenportal konnte nicht geöffnet werden.")),
        Some(url) => Ok(url),
    }
}

/// What the payment service answers to a request for the customer portal comes to.
pub fn read_portal(body: &str) -> (r: Result<String, ApiError>)
    ensures
        crate::web::text_or_refusal(r) == portal_result(is_json(body@), json_text(body@, "/url"@)),
{
    judge_portal(parses(body), text_at(body, "/url"))
}

/// Whether a text can be the number of a checkout.
pub open spec fn checkout_id_shaped(id: Seq<char>) -> bool {
    "cs_"@.is_prefix_of(id) && encode_utf8(id).len() <= 255
}

pub fn valid_checkout_id(id: &str) -> (r: bool)
    ensures
        r == checkout_id_shaped(id@),
{
    starts_with(id, "cs_") && id.as_bytes().len() <= 255
}

} // verus!
