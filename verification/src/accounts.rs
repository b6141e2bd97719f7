//! Customer accounts: addresses, sessions, reviews and support.

use crate::gaeb2000::{byte_slice, bytes_between};
use crate::model::opt_text;
use crate::parser::size;
use crate::patterns::{all_groups, all_matches, groups, Found, FoundView, Pattern, PROFANITY};
use crate::text::{
    chars, ends_with, has_char, lower, lowered, next_position, parts, position_of, repeated, same,
    slice, split, starts_with, texts, trim, trimmed,
};
use crate::web::{refused, text_or_refusal, verdict, ApiError, ApiErrorView};
use vstd::prelude::*;

verus! {

/// A text in front of and behind the first `c`.
pub open spec fn split_once(s: Seq<char>, c: char) -> Option<(Seq<char>, Seq<char>)> {
    let n = position_of(s, c);
    if n < s.len() {
        Some((s.take(n as int), s.skip(n as int + 1)))
    } else {
        None
    }
}

pub fn cut_once(s: &str, c: char) -> (r: Option<(String, String)>)
    ensures
        (match r {
            Some((a, b)) => split_once(s@, c) == Some((a@, b@)),
            None => split_once(s@, c) is None,
        }),
{
    let v = chars(s);
    let len: usize = v.len();
    assert(v@.skip(0) =~= v@);
    let n = next_position(&v, c, 0);
    if n < len {
        let a = slice(&v, 0, n);
        let b = slice(&v, n + 1, len);
        assert(a@ =~= s@.take(n as int));
        assert(b@ =~= s@.skip(n + 1));
        Some((a, b))
    } else {
        None
    }
}

/// An e-mail address as it is kept.
pub open spec fn kept_email(value: Seq<char>) -> Seq<char> {
    lower(trim(value))
}

pub fn normalize_email(value: &str) -> (r: String)
    ensures
        r@ == kept_email(value@),
{
    lowered(trimmed(value).as_str())
}

/// Whether a text has the shape of an e-mail address.
pub open spec fn email_shaped(value: Seq<char>) -> bool {
    &&& size(value) <= 254
    &&& split_once(value, '@') is Some
    &&& (split_once(value, '@')->0).0.len() > 0
    &&& (split_once(value, '@')->0).1.contains('.')
    &&& !"."@.is_prefix_of((split_once(value, '@')->0).1)
    &&& !"."@.is_suffix_of((split_once(value, '@')->0).1)
}

pub fn valid_email(value: &str) -> (r: bool)
    ensures
        r == email_shaped(value@),
{
    if value.as_bytes().len() > 254 {
        return false;
    }
    match cut_once(value, '@') {
        Some((local, domain)) => !local.as_str().is_empty() && has_char(domain.as_str(), '.')
            && !starts_with(domain.as_str(), ".") && !ends_with(domain.as_str(), "."),
        None => false,
    }
}

/// An e-mail address of which only the first letter and the domain can be read.
pub open spec fn email_hint(email: Seq<char>) -> Seq<char> {
    match split_once(email, '@') {
        None => seq![],
        Some((local, domain)) => seq![
            if local.len() > 0 {
                local[0]
            } else {
                '*'
            },
        ] + "***@"@ + domain,
    }
}

pub fn mask_email(email: &str) -> (r: String)
    ensures
        r@ == email_hint(email@),
{
    match cut_once(email, '@') {
        None => String::new(),
        Some((local, domain)) => {
            let v = chars(local.as_str());
            let mut r = String::new();
            if v.len() > 0 {
                r.push(v[0]);
            } else {
                r.push('*');
            }
            assert(r@ =~= seq![
                if local@.len() > 0 {
                    local@[0]
                } else {
                    '*'
                },
            ]);
            r.append("***@");
            r.append(domain.as_str());
            r
        },
    }
}

/// What is asked of a new customer.
pub struct AccountRegistrationRequest {
    pub email: String,
    pub name: String,
    pub company: String,
    pub street: String,
    pub postal_code: String,
    pub city: String,
    pub country: String,
}

/// Whether a field has this many characters besides white space at its ends.
pub open spec fn filled(value: Seq<char>, least: nat) -> bool {
    trim(value).len() >= least
}

fn is_filled(value: &str, least: usize) -> (r: bool)
    ensures
        r == filled(value@, least as nat),
{
    trimmed(value).as_str().unicode_len() >= least
}

/// The address under which a customer is registered, or why not.
pub open spec fn registration(request: AccountRegistrationRequest) -> Result<
    Seq<char>,
    ApiErrorView,
> {
    let email = kept_email(request.email@);
    if !email_shaped(email) {
        Err(refused(400, "Bitte eine gültige E-Mail-Adresse angeben."@))
    } else if !filled(request.name@, 2) || !filled(request.street@, 3) || !filled(
        request.postal_code@,
        3,
    ) || !filled(request.city@, 2) || !filled(request.country@, 2) {
        Err(refused(400, "Bitte die vollständige Rechnungsanschrift angeben."@))
    } else {
        Ok(email)
    }
}

pub fn validate_account_registration(request: &AccountRegistrationRequest) -> (r: Result<
    String,
    ApiError,
>)
    ensures
        text_or_refusal(r) == registration(*request),
{
    let email = normalize_email(request.email.as_str());
    if !valid_email(email.as_str()) {
        return Err(ApiError::bad_request("Bitte eine gültige E-Mail-Adresse angeben."));
    }
    if !is_filled(request.name.as_str(), 2) || !is_filled(request.street.as_str(), 3)
        || !is_filled(request.postal_code.as_str(), 3) || !is_filled(request.city.as_str(), 2)
        || !is_filled(request.country.as_str(), 2) {
        return Err(ApiError::bad_request("Bitte die vollständige Rechnungsanschrift angeben."));
    }
    Ok(email)
}

/// The value of the first cookie with a name, from the part `n` on.
pub open spec fn cookie_from(p: Seq<Seq<char>>, name: Seq<char>, n: nat) -> Option<Seq<char>>
    decreases p.len() - n,
{
    if n >= p.len() {
        None
    } else {
        match split_once(trim(p[n as int]), '=') {
            Some((key, value)) => if key == name {
                Some(value)
            } else {
                cookie_from(p, name, n + 1)
            },
            None => cookie_from(p, name, n + 1),
        }
    }
}

/// The value of a cookie in a `Cookie` header.
pub fn cookie_value(cookies: &str, name: &str) -> (r: Option<String>)
    ensures
        opt_text(r) == cookie_from(split(cookies@, ';'), name@, 0),
{
    let p = parts(cookies, ';');
    let ghost all = split(cookies@, ';');
    assert(p@.len() == texts(p@).len());
    let mut i: usize = 0;
    while i < p.len()
        invariant
            i <= p@.len() == all.len(),
            texts(p@) == all,
            cookie_from(all, name@, 0) == cookie_from(all, name@, i as nat),
            all == split(cookies@, ';'),
        decreases p@.len() - i,
    {
        assert(all[i as int] == p@[i as int]@);
        if let Some((key, value)) = cut_once(trimmed(p[i].as_str()).as_str(), '=') {
            if same(key.as_str(), name) {
                return Some(value);
            }
        }
        i = i + 1;
    }
    None
}

/// The cookie that opens a session.
pub open spec fn session_cookie(session: Seq<char>) -> Seq<char> {
    "gaeb_session="@ + session + "; Path=/; Max-Age=2592000; HttpOnly; Secure; SameSite=Lax"@
}

pub fn open_session_cookie(session: &str) -> (r: String)
    ensures
        r@ == session_cookie(session@),
{
    "gaeb_session=".to_owned().concat(session).concat(
        "; Path=/; Max-Age=2592000; HttpOnly; Secure; SameSite=Lax",
    )
}

/// Where a customer is led after signing in.
pub open spec fn landing_page(redirect_path: Seq<char>) -> Seq<char> {
    if redirect_path == "/konto.html"@ {
        "/konto.html"@
    } else {
        "/?billing=ready#preise"@
    }
}

pub fn redirect_target(redirect_path: &str) -> (r: &'static str)
    ensures
        r@ == landing_page(redirect_path@),
{
    if same(redirect_path, "/konto.html") {
        "/konto.html"
    } else {
        "/?billing=ready#preise"
    }
}

/// The SHA-256 digest of bytes.
pub uninterp spec fn sha256(bytes: Seq<u8>) -> Seq<u8>;

/// `Digest::digest` of `Sha256` of `sha2`: 32 bytes that depend on the input alone.
#[verifier::external_body]
fn digest(bytes: &[u8]) -> (r: Vec<u8>)
    ensures
        r@ == sha256(bytes@),
        r@.len() == 32,
{
    sha2::Digest::finalize(sha2::Digest::chain_update(<sha2::Sha256 as sha2::Digest>::new(), bytes)).to_vec()
}

/// The sign for a number below 16.
pub open spec fn hex_sign(n: int) -> char {
    "0123456789abcdef"@[n]
}

/// Bytes in hexadecimal signs, two for each.
pub open spec fn hex(bytes: Seq<u8>) -> Seq<char>
    decreases bytes.len(),
{
    if bytes.len() == 0 {
        seq![]
    } else {
        hex(bytes.drop_last()) + seq![
            hex_sign(bytes.last() as int / 16),
            hex_sign(bytes.last() as int % 16),
        ]
    }
}

fn hex_char(n: u8) -> (r: char)
    requires
        n < 16,
    ensures
        r == hex_sign(n as int),
{
    proof {
        reveal_strlit("0123456789abcdef");
    }
    if n < 10 {
        (48 + n) as char
    } else {
        (87 + n) as char
    }
}

pub fn hex_text(bytes: &[u8]) -> (r: String)
    ensures
        r@ == hex(bytes@),
{
    let mut r = String::new();
    let mut i: usize = 0;
    assert(bytes@.take(0) =~= seq![]);
    while i < bytes.len()
        invariant
            i <= bytes@.len(),
            r@ == hex(bytes@.take(i as int)),
        decreases bytes@.len() - i,
    {
        assert(bytes@.take(i + 1).drop_last() =~= bytes@.take(i as int));
        assert(bytes@.take(i + 1).last() == bytes@[i as int]);
        let ghost before = r@;
        let b: u8 = bytes[i];
        r.push(hex_char(b / 16));
        r.push(hex_char(b % 16));
        assert(r@ =~= before + seq![hex_sign(b as int / 16), hex_sign(b as int % 16)]);
        i = i + 1;
    }
    assert(bytes@.take(bytes@.len() as int) =~= bytes@);
    r
}

/// What is kept of a secret token.
pub open spec fn token_hash(value: Seq<char>) -> Seq<char> {
    hex(sha256(vstd::utf8::encode_utf8(value)))
}

pub fn hash_token(value: &str) -> (r: String)
    ensures
        r@ == token_hash(value@),
{
    let d = digest(value.as_bytes());
    hex_text(d.as_slice())
}

/// Whether a request may use the administration.
pub open spec fn admin_verdict(
    expected: Option<Seq<char>>,
    supplied_hash: Seq<char>,
) -> Option<ApiErrorView> {
    match expected {
        None => Some(refused(404, "Adminbereich ist nicht konfiguriert."@)),
        Some(hash) => if supplied_hash != hash {
            Some(refused(401, "Admin-Zugang nicht gültig."@))
        } else {
            None
        },
    }
}

/// Whether a token with this hash may use the administration.
pub fn check_admin_hash(expected: &Option<String>, supplied_hash: &str) -> (r: Result<(), ApiError>)
    ensures
        verdict(r) == admin_verdict(opt_text(*expected), supplied_hash@),
{
    match expected {
        None => Err(ApiError::not_found("Adminbereich ist nicht konfiguriert.")),
        Some(hash) => {
            if !same(supplied_hash, hash.as_str()) {
                return Err(ApiError::new(401, "Admin-Zugang nicht gültig."));
            }
            Ok(())
        },
    }
}

/// Whether a token may use the administration.
pub fn require_admin(expected: &Option<String>, supplied: &str) -> (r: Result<(), ApiError>)
    ensures
        verdict(r) == admin_verdict(opt_text(*expected), token_hash(supplied@)),
{
    check_admin_hash(expected, hash_token(supplied).as_str())
}

/// The milliseconds from one point in time to another, both as texts, where `chrono` can
/// read them.
pub uninterp spec fn milliseconds_between(from: Seq<char>, to: Seq<char>) -> Option<i64>;

/// `DateTime::parse_from_rfc3339` of `chrono` on both texts, and the difference of what
/// was read in whole milliseconds. Whether the texts can be read, and how far they are
/// apart, depends on them alone.
#[verifier::external_body]
fn elapsed(from: &str, to: &str) -> (r: Option<i64>)
    ensures
        r == milliseconds_between(from@, to@),
{
    let from = chrono::DateTime::parse_from_rfc3339(from).ok()?;
    let to = chrono::DateTime::parse_from_rfc3339(to).ok()?;
    Some(to.signed_duration_since(from).num_milliseconds())
}

/// Whether enough time has passed since an e-mail: two minutes, or nothing is known.
pub open spec fn rested(passed: Option<i64>) -> bool {
    match passed {
        Some(ms) => ms >= 120_000,
        None => true,
    }
}

/// Whether another e-mail may be sent this long after the last one.
pub fn is_rested(passed: Option<i64>) -> (r: bool)
    ensures
        r == rested(passed),
{
    match passed {
        Some(ms) => ms >= 120_000,
        None => true,
    }
}

/// How long ago an e-mail was sent, if one was.
pub open spec fn since(sent: Option<Seq<char>>, now: Seq<char>) -> Option<i64> {
    match sent {
        Some(at) => milliseconds_between(at, now),
        None => None,
    }
}

/// Whether another e-mail may be sent now.
pub fn may_send_again(sent: &Option<String>, now: &str) -> (r: bool)
    ensures
        r == rested(since(opt_text(*sent), now@)),
{
    let passed = match sent {
        Some(at) => elapsed(at.as_str(), now),
        None => None,
    };
    is_rested(passed)
}

/// Whether a customer may be sent an access link: only one who has an account, and not
/// too soon after the last.
pub fn account_access_email_allowed(account: bool, sent: &Option<String>, now: &str) -> (r: bool)
    ensures
        r == (account && rested(since(opt_text(*sent), now@))),
{
    account && may_send_again(sent, now)
}

/// Whether a review can be taken.
pub open spec fn review_verdict(rating: nat, text: Seq<char>) -> Option<ApiErrorView> {
    if !(1 <= rating <= 5) {
        Some(refused(400, "Bitte 1 bis 5 Sterne wählen."@))
    } else if trim(text).len() > 2000 {
        Some(refused(400, "Die Bewertung ist zu lang."@))
    } else {
        None
    }
}

pub fn validate_review(rating: u8, text: &str) -> (r: Result<(), ApiError>)
    ensures
        verdict(r) == review_verdict(rating as nat, text@),
{
    if rating < 1 || rating > 5 {
        return Err(ApiError::bad_request("Bitte 1 bis 5 Sterne wählen."));
    }
    if trimmed(text).as_str().unicode_len() > 2000 {
        return Err(ApiError::bad_request("Die Bewertung ist zu lang."));
    }
    Ok(())
}

/// Whether a support case can be taken.
pub open spec fn support_verdict(subject: Seq<char>, text: Seq<char>) -> Option<ApiErrorView> {
    if 3 <= trim(subject).len() <= 160 && 10 <= trim(text).len() <= 5000 {
        None
    } else {
        Some(refused(400, "Bitte Betreff und Beschreibung vollständig ausfüllen."@))
    }
}

pub fn validate_support_case(subject: &str, text: &str) -> (r: Result<(), ApiError>)
    ensures
        verdict(r) == support_verdict(subject@, text@),
{
    let a: usize = trimmed(subject).as_str().unicode_len();
    let b: usize = trimmed(text).as_str().unicode_len();
    if a < 3 || a > 160 || b < 10 || b > 5000 {
        return Err(
            ApiError::bad_request("Bitte Betreff und Beschreibung vollständig ausfüllen."),
        );
    }
    Ok(())
}

/// A text up to the end of its `n`-th match, with asterisks in the place of the matches,
/// and where that is, in bytes.
pub open spec fn masked_until(
    s: Seq<char>,
    found: Seq<Seq<Option<FoundView>>>,
    n: nat,
) -> (Seq<char>, nat)
    decreases n,
{
    if n == 0 {
        (seq![], 0)
    } else {
        let (before, cursor) = masked_until(s, found, (n - 1) as nat);
        let g = found[n - 1];
        if g.len() > 0 && g[0] is Some {
            (
                before + byte_slice(s, cursor as int, g[0]->0.start as int) + Seq::new(
                    g[0]->0.text.len(),
                    |i: int| '*',
                ),
                g[0]->0.end,
            )
        } else {
            (before, cursor)
        }
    }
}

/// A text with asterisks in the place of words that are not shown.
pub open spec fn masked(s: Seq<char>) -> Seq<char> {
    masked_at(s, all_matches(PROFANITY@, s))
}

/// A text with asterisks in the place of matches.
pub open spec fn masked_at(s: Seq<char>, found: Seq<Seq<Option<FoundView>>>) -> Seq<char> {
    let (done, cursor) = masked_until(s, found, found.len());
    done + byte_slice(s, cursor as int, size(s) as int)
}

pub fn mask_profanity(s: &str) -> (r: String)
    ensures
        r@ == masked(s@),
{
    mask_found(s, &Pattern::new(PROFANITY).all(s))
}

/// A text with asterisks in the place of matches.
pub fn mask_found(s: &str, found: &Vec<Vec<Option<Found>>>) -> (r: String)
    ensures
        r@ == masked_at(s@, all_groups(found@)),
{
    let ghost all = all_groups(found@);
    let mut r = String::new();
    let mut cursor: usize = 0;
    let mut i: usize = 0;
    while i < found.len()
        invariant
            i <= found@.len(),
            all == all_groups(found@),
            (r@, cursor as nat) == masked_until(s@, all, i as nat),
        decreases found@.len() - i,
    {
        assert(all[i as int] == groups(found@[i as int]@));
        let ghost g = groups(found@[i as int]@);
        if found[i].len() > 0 {
            assert(g[0] == (match found@[i as int]@[0] {
                Some(f) => Some(f@),
                None => None,
            }));
            if let Some(f) = &found[i][0] {
                let ghost before = r@;
                let stars = repeated('*', f.text.as_str().unicode_len());
                r.append(bytes_between(s, cursor, f.start).as_str());
                r.append(stars.as_str());
                assert(stars@ =~= Seq::new(f.text@.len(), |j: int| '*'));
                cursor = f.end;
            }
        }
        i = i + 1;
    }
    r.append(bytes_between(s, cursor, s.as_bytes().len()).as_str());
    r
}

} // verus!
