//! Settings of the server, as they stand in its environment.

use crate::model::opt_text;
use crate::parser::size;
use crate::text::{
    all_digits, ascii_lowercase, ascii_lowered, chars, digit, is_digit, is_space,
    long_integer_in, parse_long_integer, parse_unsigned, same, slice, space, starts_with, trim,
    trimmed, unsigned_in,
};
use vstd::prelude::*;

verus! {

/// What a switch is set to.
pub open spec fn switch(value: Option<Seq<char>>, default: bool) -> bool {
    match value {
        Some(s) => {
            let v = ascii_lowercase(trim(s));
            if v == "1"@ || v == "true"@ || v == "yes"@ || v == "on"@ {
                true
            } else if v == "0"@ || v == "false"@ || v == "no"@ || v == "off"@ {
                false
            } else {
                default
            }
        },
        None => default,
    }
}

pub fn env_bool(value: &Option<String>, default: bool) -> (r: bool)
    ensures
        r == switch(opt_text(*value), default),
{
    match value {
        Some(s) => {
            let v = ascii_lowered(trimmed(s.as_str()).as_str());
            let v = v.as_str();
            if same(v, "1") || same(v, "true") || same(v, "yes") || same(v, "on") {
                true
            } else if same(v, "0") || same(v, "false") || same(v, "no") || same(v, "off") {
                false
            } else {
                default
            }
        },
        None => default,
    }
}

/// A number up to a limit, or else a given one.
pub open spec fn number_set(value: Option<Seq<char>>, limit: nat, default: nat) -> nat {
    match value {
        Some(s) => match unsigned_in(s, limit) {
            Some(n) => n,
            None => default,
        },
        None => default,
    }
}

pub fn env_usize(value: &Option<String>, default: usize) -> (r: usize)
    ensures
        r == number_set(opt_text(*value), usize::MAX as nat, default as nat),
{
    match value {
        Some(s) => match parse_unsigned(s.as_str(), usize::MAX as u64) {
            Some(n) => n as usize,
            None => default,
        },
        None => default,
    }
}

pub fn env_u32(value: &Option<String>, default: u32) -> (r: u32)
    ensures
        r == number_set(opt_text(*value), u32::MAX as nat, default as nat),
{
    match value {
        Some(s) => match parse_unsigned(s.as_str(), u32::MAX as u64) {
            Some(n) => n as u32,
            None => default,
        },
        None => default,
    }
}

pub fn env_u16(value: &Option<String>, default: u16) -> (r: u16)
    ensures
        r == number_set(opt_text(*value), u16::MAX as nat, default as nat),
{
    match value {
        Some(s) => match parse_unsigned(s.as_str(), u16::MAX as u64) {
            Some(n) => n as u16,
            None => default,
        },
        None => default,
    }
}

/// A whole number, or else a given one.
pub open spec fn integer_set(value: Option<Seq<char>>, default: int) -> int {
    match value {
        Some(s) => match long_integer_in(s) {
            Some(n) => n,
            None => default,
        },
        None => default,
    }
}

pub fn env_i64(value: &Option<String>, default: i64) -> (r: i64)
    ensures
        r == integer_set(opt_text(*value), default as int),
{
    match value {
        Some(s) => match parse_long_integer(s.as_str()) {
            Some(n) => n,
            None => default,
        },
        None => default,
    }
}

/// The prices that are shown, and a line about them.
pub struct OfferConfig {
    pub single_net_cents: u32,
    pub pro_net_cents: u32,
    pub banner: Option<String>,
}

/// The first characters of a text, at most this many.
pub open spec fn cut_to(s: Seq<char>, most: nat) -> Seq<char> {
    if s.len() > most {
        s.take(most as int)
    } else {
        s
    }
}

fn cut_short(s: &str, most: usize) -> (r: String)
    ensures
        r@ == cut_to(s@, most as nat),
{
    let v = chars(s);
    if v.len() > most {
        let r = slice(&v, 0, most);
        assert(r@ =~= s@.take(most as int));
        r
    } else {
        s.to_owned()
    }
}

/// The line about the prices, if it says anything.
pub open spec fn banner_of(value: Option<Seq<char>>) -> Option<Seq<char>> {
    match value {
        Some(s) => if cut_to(trim(s), 180).len() == 0 {
            None
        } else {
            Some(cut_to(trim(s), 180))
        },
        None => None,
    }
}

pub fn offer_config(single: &Option<String>, pro: &Option<String>, banner: &Option<String>) -> (r:
    OfferConfig)
    ensures
        r.single_net_cents == number_set(opt_text(*single), u32::MAX as nat, 990),
        r.pro_net_cents == number_set(opt_text(*pro), u32::MAX as nat, 1900),
        opt_text(r.banner) == banner_of(opt_text(*banner)),
{
    let banner = match banner {
        Some(s) => {
            let t = cut_short(trimmed(s.as_str()).as_str(), 180);
            if t.as_str().is_empty() {
                None
            } else {
                Some(t)
            }
        },
        None => None,
    };
    OfferConfig {
        single_net_cents: env_u32(single, 990),
        pro_net_cents: env_u32(pro, 1900),
        banner,
    }
}

/// Whether a character can stand in the number of a tracking account.
pub open spec fn tracking_char(c: char) -> bool {
    'A' <= c <= 'Z' || '0' <= c <= '9' || c == '-'
}

/// Whether a text is the number of a tracking account.
pub open spec fn tracking_id(s: Seq<char>, start: Seq<char>) -> bool {
    &&& start.is_prefix_of(s)
    &&& size(s) <= 32
    &&& forall|i: int| 0 <= i < s.len() ==> tracking_char(#[trigger] s[i])
}

fn is_tracking_id(s: &str, start: &str) -> (r: bool)
    ensures
        r == tracking_id(s@, start@),
{
    if !starts_with(s, start) || s.as_bytes().len() > 32 {
        return false;
    }
    let v = chars(s);
    let mut i: usize = 0;
    while i < v.len()
        invariant
            v@ == s@,
            i <= v@.len(),
            forall|j: int| 0 <= j < i ==> tracking_char(#[trigger] s@[j]),
        decreases v@.len() - i,
    {
        let c = v[i];
        if !(('A' <= c && c <= 'Z') || ('0' <= c && c <= '9') || c == '-') {
            assert(!tracking_char(s@[i as int]));
            return false;
        }
        i = i + 1;
    }
    true
}

/// A setting that is the number of a tracking account.
pub open spec fn tracking_set(value: Option<Seq<char>>, start: Seq<char>) -> Option<Seq<char>> {
    match value {
        Some(s) => if tracking_id(trim(s), start) {
            Some(trim(s))
        } else {
            None
        },
        None => None,
    }
}

pub fn tracking_setting(value: &Option<String>, start: &str) -> (r: Option<String>)
    ensures
        opt_text(r) == tracking_set(opt_text(*value), start@),
{
    match value {
        Some(s) => {
            let t = trimmed(s.as_str());
            if is_tracking_id(t.as_str(), start) {
                Some(t)
            } else {
                None
            }
        },
        None => None,
    }
}

/// A setting of up to 32 digits.
pub open spec fn digits_set(value: Option<Seq<char>>) -> Option<Seq<char>> {
    match value {
        Some(s) => if trim(s).len() > 0 && size(trim(s)) <= 32 && all_digits(trim(s)) {
            Some(trim(s))
        } else {
            None
        },
        None => None,
    }
}

pub fn digits_setting(value: &Option<String>) -> (r: Option<String>)
    ensures
        opt_text(r) == digits_set(opt_text(*value)),
{
    match value {
        Some(s) => {
            let t = trimmed(s.as_str());
            if t.as_str().is_empty() || t.as_str().as_bytes().len() > 32 {
                return None;
            }
            let v = chars(t.as_str());
            let mut i: usize = 0;
            while i < v.len()
                invariant
                    v@ == t@,
                    t@ == trim(s@),
                    *value == Some(*s),
                    i <= v@.len(),
                    forall|j: int| 0 <= j < i ==> is_digit(#[trigger] t@[j]),
                decreases v@.len() - i,
            {
                if !digit(v[i]) {
                    assert(!is_digit(t@[i as int]));
                    return None;
                }
                i = i + 1;
            }
            Some(t)
        },
        None => None,
    }
}

/// A setting that is an address on the web.
pub open spec fn url_set(value: Option<Seq<char>>) -> Option<Seq<char>> {
    match value {
        Some(s) => if "https://"@.is_prefix_of(trim(s)) && size(trim(s)) <= 2048 && forall|i: int|
            0 <= i < trim(s).len() ==> !is_space(#[trigger] trim(s)[i]) {
            Some(trim(s))
        } else {
            None
        },
        None => None,
    }
}

pub fn url_setting(value: &Option<String>) -> (r: Option<String>)
    ensures
        opt_text(r) == url_set(opt_text(*value)),
{
    match value {
        Some(s) => {
            let t = trimmed(s.as_str());
            if !starts_with(t.as_str(), "https://") || t.as_str().as_bytes().len() > 2048 {
                return None;
            }
            let v = chars(t.as_str());
            let mut i: usize = 0;
            while i < v.len()
                invariant
                    v@ == t@,
                    t@ == trim(s@),
                    *value == Some(*s),
                    i <= v@.len(),
                    forall|j: int| 0 <= j < i ==> !is_space(#[trigger] t@[j]),
                decreases v@.len() - i,
            {
                if space(v[i]) {
                    assert(is_space(trim(s@)[i as int]));
                    return None;
                }
                i = i + 1;
            }
            Some(t)
        },
        None => None,
    }
}

/// Whether a character can stand in the version of a consent.
pub open spec fn version_char(c: char) -> bool {
    'a' <= c <= 'z' || 'A' <= c <= 'Z' || '0' <= c <= '9' || c == '-' || c == '_'
}

/// The characters that can stand in a version.
pub open spec fn version_chars(s: Seq<char>) -> Seq<char>
    decreases s.len(),
{
    if s.len() == 0 {
        seq![]
    } else if version_char(s.last()) {
        version_chars(s.drop_last()).push(s.last())
    } else {
        version_chars(s.drop_last())
    }
}

/// The version of the consent that is asked for.
pub open spec fn version_set(value: Option<Seq<char>>) -> Seq<char> {
    cut_to(
        version_chars(
            trim(
                match value {
                    Some(s) => s,
                    None => "1"@,
                },
            ),
        ),
        32,
    )
}

pub fn consent_version(value: &Option<String>) -> (r: String)
    ensures
        r@ == version_set(opt_text(*value)),
{
    let t = match value {
        Some(s) => trimmed(s.as_str()),
        None => trimmed("1"),
    };
    let v = chars(t.as_str());
    let mut kept = String::new();
    let mut i: usize = 0;
    assert(t@.take(0) =~= seq![]);
    while i < v.len()
        invariant
            v@ == t@,
            i <= v@.len(),
            kept@ == version_chars(t@.take(i as int)),
        decreases v@.len() - i,
    {
        assert(t@.take(i + 1).drop_last() =~= t@.take(i as int));
        assert(t@.take(i + 1).last() == v@[i as int]);
        let c = v[i];
        if ('a' <= c && c <= 'z') || ('A' <= c && c <= 'Z') || ('0' <= c && c <= '9') || c == '-'
            || c == '_' {
            kept.push(c);
        }
        i = i + 1;
    }
    assert(t@.take(v@.len() as int) =~= t@);
    cut_short(kept.as_str(), 32)
}

/// Access to the mail server.
pub struct SmtpConfig {
    pub host: String,
    pub port: u16,
    pub username: String,
    pub password: String,
    pub from: String,
}

/// Whether there is a mail server to use.
pub open spec fn smtp_ready(host: Option<Seq<char>>, from: Option<Seq<char>>) -> bool {
    host is Some && from is Some && trim(host->0).len() > 0 && trim(from->0).len() > 0
}

pub open spec fn or_nothing(v: Option<Seq<char>>) -> Seq<char> {
    match v {
        Some(s) => s,
        None => seq![],
    }
}

fn text_or_nothing(v: &Option<String>) -> (r: String)
    ensures
        r@ == or_nothing(opt_text(*v)),
{
    match v {
        Some(s) => s.clone(),
        None => String::new(),
    }
}

pub fn smtp_config(
    host: &Option<String>,
    from: &Option<String>,
    port: &Option<String>,
    username: &Option<String>,
    password: &Option<String>,
) -> (r: Option<SmtpConfig>)
    ensures
        r is Some == smtp_ready(opt_text(*host), opt_text(*from)),
        r is Some ==> r->0.host@ == trim(opt_text(*host)->0) && r->0.from@ == trim(
            opt_text(*from)->0,
        ) && r->0.port == number_set(opt_text(*port), u16::MAX as nat, 587) && r->0.username@
            == or_nothing(opt_text(*username)) && r->0.password@ == or_nothing(
            opt_text(*password),
        ),
{
    match (host, from) {
        (Some(host), Some(from)) => {
            let host = trimmed(host.as_str());
            let from = trimmed(from.as_str());
            if host.as_str().is_empty() || from.as_str().is_empty() {
                return None;
            }
            Some(
                SmtpConfig {
                    host,
                    port: env_u16(port, 587),
                    username: text_or_nothing(username),
                    password: text_or_nothing(password),
                    from,
                },
            )
        },
        _ => None,
    }
}

/// Whether a mail server is spoken to in an encrypted connection from the start; on every
/// other port the connection is encrypted once it stands.
pub fn encrypted_from_start(port: u16) -> (r: bool)
    ensures
        r == (port == 465),
{
    port == 465
}

} // verus!
