//! What holds of what the service takes in: forms, cookies, settings and the imprint.

use crate::accounts::{
    cookie_from, email_shaped, kept_email, landing_page, registration, split_once,
    AccountRegistrationRequest,
};
use crate::desk::{customer_result, event_head, media_type_of, reviewable};
use crate::imprint::{
    imprint_in, imprint_until, lines_behind, run_together, BlockView, ImprintView, SectionView,
};
use crate::jobs::{
    conversion_terms, fetched_extension, gaeb_name, gaeb_verdict, usage_verdict, with_field,
    with_gaeb_field, GaebUploadView, UploadView,
};
use crate::parser::size;
use crate::settings::{
    banner_of, digits_set, switch, tracking_char, tracking_set, url_set, version_char,
    version_chars, version_set,
};
use crate::text::{
    all_digits, ascii_lowercase, contains, is_space, lemma_position_of, lemma_position_of_found, trim,
};
use vstd::prelude::*;

verus! {

/// A form that was filled in field by field holds each value in its own place: texts
/// without white space at their ends, and ticks where the field says so.
pub proof fn law_form_filled(
    form: UploadView,
    email: Seq<char>,
    name: Seq<char>,
    company: Seq<char>,
    phone: Seq<char>,
    consent: Seq<char>,
    fallback: Seq<char>,
    updates: Seq<char>,
    confirm: Seq<char>,
)
    ensures
        ({
            let a = with_field(form, "email"@, email);
            let b = with_field(a, "contact_name"@, name);
            let c = with_field(b, "company"@, company);
            let d = with_field(c, "phone"@, phone);
            let e = with_field(d, "consent"@, consent);
            let f = with_field(e, "email_fallback_consent"@, fallback);
            let g = with_field(f, "feature_updates_consent"@, updates);
            let h = with_field(g, "confirm_structure"@, confirm);
            &&& h.email == kept_email(email)
            &&& h.contact_name == trim(name)
            &&& h.company == trim(company)
            &&& h.phone == trim(phone)
            &&& h.consent <==> consent == "true"@ || consent == "on"@
            &&& h.email_fallback_consent <==> fallback == "true"@ || fallback == "on"@
            &&& h.feature_updates_consent <==> updates == "true"@ || updates == "on"@
            &&& h.confirm_structure <==> confirm == "true"@
            &&& h.filename == form.filename
            &&& h.pdf == form.pdf
        }),
{
    reveal_strlit("email");
    reveal_strlit("contact_name");
    reveal_strlit("company");
    reveal_strlit("phone");
    reveal_strlit("consent");
    reveal_strlit("email_fallback_consent");
    reveal_strlit("feature_updates_consent");
    reveal_strlit("confirm_structure");
    assert("email"@[0] == 'e' && "phone"@[0] == 'p' && "email"@.len() == 5 && "phone"@.len() == 5);
    assert("company"@[2] == 'm' && "consent"@[2] == 'n' && "company"@.len() == 7 && "consent"@.len()
        == 7);
    assert("contact_name"@.len() == 12 && "confirm_structure"@.len() == 17);
    assert("email_fallback_consent"@.len() == 22 && "feature_updates_consent"@.len() == 23);
}

/// A form for a GAEB file holds each value in its own place; the wanted format is written
/// in small letters.
pub proof fn law_gaeb_form_filled(
    form: GaebUploadView,
    email: Seq<char>,
    consent: Seq<char>,
    format: Seq<char>,
)
    ensures
        ({
            let a = with_gaeb_field(form, "email"@, email);
            let b = with_gaeb_field(a, "consent"@, consent);
            let c = with_gaeb_field(b, "output_format"@, format);
            &&& c.email == kept_email(email)
            &&& c.consent <==> consent == "true"@ || consent == "on"@
            &&& c.output_format == ascii_lowercase(trim(format))
            &&& c.filename == form.filename
            &&& c.gaeb == form.gaeb
        }),
{
    reveal_strlit("email");
    reveal_strlit("consent");
    reveal_strlit("output_format");
    assert("email"@.len() == 5 && "consent"@.len() == 7 && "output_format"@.len() == 13);
}

/// A GAEB file is taken if and only if it is not empty, its name has an extension that can
/// be read, and a PDF document or a request is wanted of it.
pub proof fn law_gaeb_file_taken(form: GaebUploadView)
    ensures
        gaeb_verdict(form) is None <==> {
            &&& form.gaeb.len() > 0
            &&& gaeb_name(form.filename)
            &&& form.output_format == seq!['p', 'd', 'f'] || form.output_format == seq![
                'x',
                '8',
                '3',
            ]
        },
        gaeb_verdict(form) is Some ==> gaeb_verdict(form)->0.status == 400,
{
    reveal_strlit("pdf");
    reveal_strlit("x83");
    assert("pdf"@ =~= seq!['p', 'd', 'f']);
    assert("x83"@ =~= seq!['x', '8', '3']);
}

/// A subscriber converts under the address of the subscription, with the larger limit and
/// a hundred conversions a month, without anything else being asked. Everyone else gives
/// an address and consent, and has the smaller limit and three conversions.
pub proof fn law_terms(
    subscriber: Option<Seq<char>>,
    email: Seq<char>,
    consent: bool,
    free: nat,
    paid: nat,
)
    ensures
        ({
            let r = conversion_terms(subscriber, email, consent, free, paid);
            &&& r is Ok <==> subscriber is Some || (email_shaped(email) && consent)
            &&& r is Ok && subscriber is Some ==> {
                &&& r->Ok_0.email == subscriber->0
                &&& r->Ok_0.allowed_bytes == paid
                &&& r->Ok_0.monthly_limit == 100
                &&& r->Ok_0.tier == seq!['p', 'r', 'o']
            }
            &&& r is Ok && subscriber is None ==> {
                &&& r->Ok_0.email == email
                &&& r->Ok_0.allowed_bytes == free
                &&& r->Ok_0.monthly_limit == 3
                &&& r->Ok_0.tier == seq!['f', 'r', 'e', 'e']
            }
            &&& r is Err ==> r->Err_0.status == 400
        }),
{
    reveal_strlit("pro");
    reveal_strlit("free");
    assert("pro"@ =~= seq!['p', 'r', 'o']);
    assert("free"@ =~= seq!['f', 'r', 'e', 'e']);
}

/// A conversion is refused once the conversions of both directions reach the limit.
pub proof fn law_usage_limited(jobs: nat, direct: nat, limit: nat)
    requires
        limit < u32::MAX,
    ensures
        usage_verdict(jobs, direct, limit) is None <==> jobs + direct < limit,
        usage_verdict(jobs, direct, limit) is Some ==> usage_verdict(jobs, direct, limit)->0.status
            == 429,
{
}

/// A customer is registered if and only if the address has the shape of one and the
/// address for the invoice is complete; registered is the address in its kept form.
pub proof fn law_registration(request: AccountRegistrationRequest)
    ensures
        ({
            let r = registration(request);
            &&& r is Ok <==> {
                &&& email_shaped(kept_email(request.email@))
                &&& trim(request.name@).len() >= 2
                &&& trim(request.street@).len() >= 3
                &&& trim(request.postal_code@).len() >= 3
                &&& trim(request.city@).len() >= 2
                &&& trim(request.country@).len() >= 2
            }
            &&& r is Ok ==> r->Ok_0 == kept_email(request.email@)
            &&& r is Err ==> r->Err_0.status == 400
        }),
{
}

proof fn lemma_cookie(p: Seq<Seq<char>>, name: Seq<char>, n: nat, k: int, value: Seq<char>)
    requires
        n <= k < p.len(),
        !name.contains('='),
        trim(p[k]) == name.push('=') + value,
        forall|i: int| n <= i < k ==> !name.push('=').is_prefix_of(trim(#[trigger] p[i])),
    ensures
        cookie_from(p, name, n) == Some(value),
    decreases k - n,
{
    if n < k {
        let s = trim(p[n as int]);
        assert(!name.push('=').is_prefix_of(s));
        if let Some((key, rest)) = split_once(s, '=') {
            let m = key.len() as int;
            if key == name {
                lemma_found_at(s, '=');
                assert(s[m] == '=');
                assert(s.subrange(0, m + 1) =~= name.push('='));
                assert(name.push('=').is_prefix_of(s));
            }
        }
        lemma_cookie(p, name, n + 1, k, value);
    } else {
        let s = trim(p[k]);
        let m = name.len() as int;
        assert forall|i: int| 0 <= i < m implies s[i] != '=' by {
            assert(s[i] == name[i]);
            assert(name.contains(name[i]));
        }
        assert(s[m] == '=');
        lemma_position_of(s, '=', m);
        assert(s.take(m) =~= name);
        assert(s.skip(m + 1) =~= value);
    }
}

proof fn lemma_found_at(s: Seq<char>, c: char)
    requires
        split_once(s, c) is Some,
    ensures
        (split_once(s, c)->0).0.len() < s.len(),
        s[(split_once(s, c)->0).0.len() as int] == c,
        s.take((split_once(s, c)->0).0.len() as int) == (split_once(s, c)->0).0,
{
    lemma_position_of_found(s, c);
}

/// The value of a cookie is what follows its name and an equals sign, in the first part of
/// the header that names it.
pub proof fn law_cookie_read(p: Seq<Seq<char>>, name: Seq<char>, k: int, value: Seq<char>)
    requires
        0 <= k < p.len(),
        !name.contains('='),
        trim(p[k]) == name.push('=') + value,
        forall|i: int| 0 <= i < k ==> !name.push('=').is_prefix_of(trim(#[trigger] p[i])),
    ensures
        cookie_from(p, name, 0) == Some(value),
{
    lemma_cookie(p, name, 0, k, value);
}

/// A switch is on for `1`, `true`, `yes` and `on` and off for `0`, `false`, `no` and `off`,
/// in upper or lower case and with white space around it; without a value or with any
/// other one it is as it was.
pub proof fn law_switches(s: Seq<char>, default: bool)
    ensures
        switch(None, default) == default,
        ({
            let v = ascii_lowercase(trim(s));
            let on = v == seq!['1'] || v == seq!['t', 'r', 'u', 'e'] || v == seq!['y', 'e', 's']
                || v == seq!['o', 'n'];
            let off = v == seq!['0'] || v == seq!['f', 'a', 'l', 's', 'e'] || v == seq!['n', 'o']
                || v == seq!['o', 'f', 'f'];
            &&& on ==> switch(Some(s), default)
            &&& off ==> !switch(Some(s), default)
            &&& !on && !off ==> switch(Some(s), default) == default
        }),
{
    reveal_strlit("1");
    reveal_strlit("true");
    reveal_strlit("yes");
    reveal_strlit("on");
    reveal_strlit("0");
    reveal_strlit("false");
    reveal_strlit("no");
    reveal_strlit("off");
    assert("1"@ =~= seq!['1']);
    assert("true"@ =~= seq!['t', 'r', 'u', 'e']);
    assert("yes"@ =~= seq!['y', 'e', 's']);
    assert("on"@ =~= seq!['o', 'n']);
    assert("0"@ =~= seq!['0']);
    assert("false"@ =~= seq!['f', 'a', 'l', 's', 'e']);
    assert("no"@ =~= seq!['n', 'o']);
    assert("off"@ =~= seq!['o', 'f', 'f']);
    assert(seq!['0'][0] == '0' && seq!['1'][0] == '1');
    assert(seq!['n', 'o'][0] == 'n' && seq!['o', 'n'][0] == 'o');
    assert(seq!['o', 'f', 'f'][0] == 'o' && seq!['y', 'e', 's'][0] == 'y');
}

/// A setting for an address, for a tracking account, for an account number or for a banner
/// gives the text without white space at its ends, or nothing; an address is one with
/// `https`, without white space inside and of at most 2048 bytes, and a number has at most
/// 32 digits.
pub proof fn law_texts_set(s: Seq<char>, start: Seq<char>)
    ensures
        url_set(Some(s)) is Some ==> url_set(Some(s))->0 == trim(s) && size(trim(s)) <= 2048
            && !trim(s).contains(' ') && trim(s).len() >= 8 && trim(s)[4] == 's' && trim(s)[5]
            == ':',
        tracking_set(Some(s), start) is Some ==> tracking_set(Some(s), start)->0 == trim(s)
            && start.is_prefix_of(trim(s)) && size(trim(s)) <= 32 && !trim(s).contains(' '),
        digits_set(Some(s)) is Some <==> size(trim(s)) <= 32 && trim(s).len() > 0 && all_digits(
            trim(s),
        ),
        digits_set(Some(s)) is Some ==> digits_set(Some(s))->0 == trim(s),
        0 < trim(s).len() <= 180 ==> banner_of(Some(s)) == Some(trim(s)),
        trim(s).len() == 0 ==> banner_of(Some(s)) is None,
        trim(s).len() > 180 ==> banner_of(Some(s)) == Some(trim(s).subrange(0, 180)),
{
    let t = trim(s);
    if url_set(Some(s)) is Some {
        reveal_strlit("https://");
        assert(t.subrange(0, 8) == "https://"@);
        assert(t[4] == t.subrange(0, 8)[4]);
        assert(t[5] == t.subrange(0, 8)[5]);
        if t.contains(' ') {
            let i = choose|i: int| 0 <= i < t.len() && t[i] == ' ';
            assert(is_space(t[i]));
        }
    }
    if tracking_set(Some(s), start) is Some && t.contains(' ') {
        let i = choose|i: int| 0 <= i < t.len() && t[i] == ' ';
        assert(!tracking_char(t[i]));
    }
    if t.len() > 180 {
        assert(t.take(180) =~= t.subrange(0, 180));
    }
}

/// Whether a character is a letter, a digit, a hyphen or an underscore.
pub open spec fn plain_char(c: char) -> bool {
    'a' <= c <= 'z' || 'A' <= c <= 'Z' || '0' <= c <= '9' || c == '-' || c == '_'
}

/// The version of the consent has at most 32 characters, each a letter, a digit, a hyphen
/// or an underscore; a text that is such a version is taken as it is, and without a
/// setting it is `1`.
pub proof fn law_consent_version(s: Seq<char>)
    ensures
        version_set(Some(s)).len() <= 32,
        forall|i: int| 0 <= i < version_set(Some(s)).len() ==> plain_char(
            #[trigger] version_set(Some(s))[i],
        ),
        trim(s).len() <= 32 && (forall|i: int|
            0 <= i < trim(s).len() ==> plain_char(#[trigger] trim(s)[i])) ==> version_set(Some(s))
            == trim(s),
        version_set(None) == version_set(Some(seq!['1'])),
{
    lemma_version(trim(s));
    reveal_strlit("1");
    assert("1"@ =~= seq!['1']);
}

proof fn lemma_version(s: Seq<char>)
    ensures
        forall|i: int| 0 <= i < version_chars(s).len() ==> version_char(#[trigger] version_chars(s)[i]),
        (forall|i: int| 0 <= i < s.len() ==> version_char(#[trigger] s[i])) ==> version_chars(s)
            == s,
    decreases s.len(),
{
    if s.len() > 0 {
        let front = s.drop_last();
        lemma_version(front);
        assert forall|i: int| 0 <= i < version_chars(s).len() implies version_char(
            #[trigger] version_chars(s)[i],
        ) by {
            if i < version_chars(front).len() {
                assert(version_chars(s)[i] == version_chars(front)[i]);
            }
        }
        if forall|i: int| 0 <= i < s.len() ==> version_char(#[trigger] s[i]) {
            assert(version_char(s[s.len() - 1]));
            assert forall|i: int| 0 <= i < front.len() implies version_char(#[trigger] front[i]) by {
                assert(front[i] == s[i]);
            }
            assert(front.push(s.last()) =~= s);
        }
    } else {
        assert(version_chars(s) =~= s);
    }
}

/// An event is filed under its number and kind, one without a kind as unknown; one that
/// cannot be read, or has no number, is refused.
pub proof fn law_events_filed(parsed: bool, id: Option<Seq<char>>, kind: Option<Seq<char>>)
    ensures
        event_head(parsed, id, kind) is Ok <==> parsed && id is Some,
        event_head(parsed, id, kind) is Err ==> event_head(parsed, id, kind)->Err_0.status == 400,
        parsed && id is Some ==> (event_head(parsed, id, kind)->Ok_0).0 == id->0,
        parsed && id is Some && kind is Some ==> (event_head(parsed, id, kind)->Ok_0).1 == kind->0,
        parsed && id is Some && kind is None ==> (event_head(parsed, id, kind)->Ok_0).1
            == "unknown"@,
{
}

/// Only jobs that were paid for and are ready can be reviewed; who never paid has no
/// customer number; a document is fetched as what it is, and a sign-in leads to the
/// account where it came from there.
pub proof fn law_small_decisions(
    status: Seq<char>,
    tier: Seq<char>,
    stored: Option<Seq<char>>,
    format: Seq<char>,
    path: Seq<char>,
)
    ensures
        reviewable(status, tier) <==> status == seq!['r', 'e', 'a', 'd', 'y'] && (tier == seq![
            's',
            'i',
            'n',
            'g',
            'l',
            'e',
        ] || tier == seq!['p', 'r', 'o']),
        customer_result(stored) is Ok <==> stored is Some && stored->0.len() > 0,
        customer_result(stored) is Ok ==> customer_result(stored)->Ok_0 == stored->0,
        ({
            let f = ascii_lowercase(format);
            &&& fetched_extension(format) is Some <==> f == seq!['x', '8', '3'] || f == seq![
                'x',
                '8',
                '4',
            ]
            &&& fetched_extension(format) is Some ==> fetched_extension(format)->0 == f
        }),
        format == seq!['x', '8', '3'] <==> media_type_of(format)
            == "application/xml; charset=utf-8"@,
        format != seq!['x', '8', '3'] <==> media_type_of(format) == "application/pdf"@,
        path == "/konto.html"@ <==> landing_page(path) == path && path.len() == 11,
{
    reveal_strlit("ready");
    reveal_strlit("single");
    reveal_strlit("pro");
    reveal_strlit("x83");
    reveal_strlit("x84");
    reveal_strlit("application/xml; charset=utf-8");
    reveal_strlit("application/pdf");
    reveal_strlit("/konto.html");
    reveal_strlit("/?billing=ready#preise");
    assert("ready"@ =~= seq!['r', 'e', 'a', 'd', 'y']);
    assert("single"@ =~= seq!['s', 'i', 'n', 'g', 'l', 'e']);
    assert("pro"@ =~= seq!['p', 'r', 'o']);
    assert("x83"@ =~= seq!['x', '8', '3']);
    assert("x84"@ =~= seq!['x', '8', '4']);
    assert("application/xml; charset=utf-8"@.len() == 30);
    assert("application/pdf"@.len() == 15);
    assert("/konto.html"@.len() == 11);
    assert("/?billing=ready#preise"@.len() == 22);
}

/// The heading of a block of the page.
pub open spec fn heading_of_block(block: BlockView) -> Seq<char> {
    run_together(block.headings[0])
}

/// Whether a block of the page has a heading and something behind it, and does not end the
/// imprint.
pub open spec fn tells_something(block: BlockView) -> bool {
    &&& block.headings.len() > 0
    &&& heading_of_block(block).len() > 0
    &&& lines_behind(block, heading_of_block(block)).len() > 0
    &&& !ends_imprint(block)
}

/// Whether a block of the page ends the imprint.
pub open spec fn ends_imprint(block: BlockView) -> bool {
    block.headings.len() > 0 && ascii_lowercase(heading_of_block(block)) == ascii_lowercase(
        "unsere Unternehmensbereiche"@,
    )
}

/// Whether a block of the page names the operator.
pub open spec fn names_operator(block: BlockView) -> bool {
    block.headings.len() > 0 && contains(heading_of_block(block), "Seitenbetreiber"@)
}

/// The sections that blocks make.
pub open spec fn sections_of(blocks: Seq<BlockView>, from: int, to: int) -> Seq<SectionView> {
    Seq::new(
        (to - from) as nat,
        |i: int| SectionView {
            heading: heading_of_block(blocks[from + i]),
            lines: lines_behind(blocks[from + i], heading_of_block(blocks[from + i])),
        },
    )
}

proof fn lemma_before_start(blocks: Seq<BlockView>, n: nat)
    requires
        n <= blocks.len(),
        forall|i: int| 0 <= i < n ==> !names_operator(#[trigger] blocks[i]),
    ensures
        imprint_until(blocks, n) == (ImprintView { started: false, ended: false, sections: seq![] }),
    decreases n,
{
    if n > 0 {
        lemma_before_start(blocks, (n - 1) as nat);
        assert(!names_operator(blocks[n - 1]));
    }
}

proof fn lemma_sections(blocks: Seq<BlockView>, from: int, n: nat)
    requires
        0 <= from < n <= blocks.len(),
        forall|i: int| 0 <= i < from ==> !names_operator(#[trigger] blocks[i]),
        names_operator(blocks[from]),
        forall|i: int| from <= i < n ==> tells_something(#[trigger] blocks[i]),
    ensures
        imprint_until(blocks, n) == (ImprintView {
            started: true,
            ended: false,
            sections: sections_of(blocks, from, n as int),
        }),
    decreases n,
{
    let none = Seq::<SectionView>::empty();
    assert(tells_something(blocks[n - 1]));
    if n == from + 1 {
        lemma_before_start(blocks, from as nat);
        assert(imprint_until(blocks, n).sections =~= sections_of(blocks, from, n as int));
    } else {
        lemma_sections(blocks, from, (n - 1) as nat);
        assert(imprint_until(blocks, n).sections =~= sections_of(blocks, from, n as int));
    }
}

proof fn lemma_ended(blocks: Seq<BlockView>, m: nat, n: nat)
    requires
        m <= n <= blocks.len(),
        imprint_until(blocks, m).ended,
    ensures
        imprint_until(blocks, n).sections == imprint_until(blocks, m).sections,
        imprint_until(blocks, n).ended,
    decreases n,
{
    if m < n {
        lemma_ended(blocks, m, (n - 1) as nat);
    }
}

/// The imprint is made of the blocks from the first one that names the operator up to the
/// one on the areas of business, in order, where those are three at least; what stands in
/// front and behind does not matter.
pub proof fn law_imprint_read(blocks: Seq<BlockView>, from: int, to: int)
    requires
        0 <= from < to < blocks.len(),
        forall|i: int| 0 <= i < from ==> !names_operator(#[trigger] blocks[i]),
        names_operator(blocks[from]),
        forall|i: int| from <= i < to ==> tells_something(#[trigger] blocks[i]),
        ends_imprint(blocks[to]),
    ensures
        imprint_in(blocks) == if to - from >= 3 {
            Some(sections_of(blocks, from, to))
        } else {
            None
        },
{
    lemma_sections(blocks, from, to as nat);
    lemma_ended(blocks, (to + 1) as nat, blocks.len());
}

} // verus!
