//! What holds of the rules of the conversion service.

use crate::accounts::{
    admin_verdict, email_hint, email_shaped, hex, hex_sign, masked_until, rested, review_verdict,
    split_once, support_verdict,
};
use crate::billing::{
    bytes_of_hex, genuine, hex_pair, hex_value, month_limit, plan_of, signature_verdict, signed_by,
    storage_of, upload_limit, SignatureView, StoredView,
};
use crate::events::{
    delivery, effect_of, ledger_entry_of, or_empty, with_purchase, AccountView, EffectView,
    EventView, PurchaseView,
};
use crate::parser::size;
use crate::patterns::FoundView;
use crate::text::{lemma_position_of, lower, trim};
use vstd::prelude::*;

verus! {

proof fn lemma_hex_sign(n: int)
    requires
        0 <= n < 16,
    ensures
        hex_value(hex_sign(n)) == Some(n as nat),
{
    reveal_strlit("0123456789abcdef");
}

/// Bytes in hexadecimal signs are read as they were.
pub proof fn law_hex_reads_back(bytes: Seq<u8>)
    ensures
        bytes_of_hex(hex(bytes)) == Some(bytes),
        hex(bytes).len() == 2 * bytes.len(),
    decreases bytes.len(),
{
    if bytes.len() > 0 {
        let front = bytes.drop_last();
        law_hex_reads_back(front);
        let n = bytes.last() as int;
        let s = hex(bytes);
        lemma_hex_sign(n / 16);
        lemma_hex_sign(n % 16);
        assert(s.drop_last().drop_last() =~= hex(front));
        assert(s[s.len() - 2] == hex_sign(n / 16));
        assert(s.last() == hex_sign(n % 16));
        assert(16 * (n / 16) + n % 16 == n);
        assert(front.push(bytes.last()) =~= bytes);
    } else {
        assert(hex(bytes) =~= seq![]);
        assert(bytes_of_hex(seq![]) == Some(Seq::<u8>::empty()));
        assert(bytes =~= seq![]);
    }
}

/// A message is taken if and only if its time is known and at most five minutes off, and
/// its signature is valid.
pub proof fn law_messages_taken(timestamp: Option<int>, now: int, valid: bool)
    ensures
        signature_verdict(timestamp, now, valid) is None <==> timestamp is Some && -300 <= now
            - timestamp->0 <= 300 && valid,
        signature_verdict(timestamp, now, valid) is Some ==> signature_verdict(
            timestamp,
            now,
            valid,
        )->0.status == 400,
{
}

proof fn lemma_signed_by(signatures: Seq<Seq<char>>, code: Seq<u8>, n: nat)
    requires
        n <= signatures.len(),
    ensures
        signed_by(signatures, code, n) <==> exists|i: int|
            0 <= i < n && bytes_of_hex(#[trigger] signatures[i]) == Some(code),
    decreases n,
{
    if n > 0 {
        lemma_signed_by(signatures, code, (n - 1) as nat);
        if bytes_of_hex(signatures[n - 1]) == Some(code) {
            assert(bytes_of_hex(signatures[n - 1]) == Some(code));
        }
    }
}

/// A message is genuine if and only if one of its signatures is the authentication code of
/// its time and its body under the secret.
pub proof fn law_genuine_messages(signature: SignatureView, body: Seq<u8>, secret: Seq<char>)
    ensures
        genuine(signature, body, secret) <==> signature.timestamp is Some && exists|i: int|
            0 <= i < signature.signatures.len() && bytes_of_hex(
                #[trigger] signature.signatures[i],
            ) == Some(
                crate::billing::mac_of(
                    vstd::utf8::encode_utf8(secret),
                    vstd::utf8::encode_utf8(
                        crate::billing::signed_text(signature.timestamp->0, body),
                    ),
                ),
            ),
{
    if let Some(t) = signature.timestamp {
        lemma_signed_by(
            signature.signatures,
            crate::billing::mac_of(
                vstd::utf8::encode_utf8(secret),
                vstd::utf8::encode_utf8(crate::billing::signed_text(t, body)),
            ),
            signature.signatures.len(),
        );
    }
}

/// The plan of a customer and what it allows: a hundred conversions a month with a
/// subscription and three without, and the larger uploads for everyone who has paid.
pub proof fn law_plan_limits(pro: bool, credits: int, free: nat, paid: nat)
    ensures
        pro ==> plan_of(pro, credits) == "pro"@ && month_limit(pro) == 100 && upload_limit(
            pro,
            credits,
            free,
            paid,
        ) == paid,
        !pro && credits > 0 ==> plan_of(pro, credits) == "single"@ && month_limit(pro) == 3
            && upload_limit(pro, credits, free, paid) == paid,
        !pro && credits <= 0 ==> plan_of(pro, credits) == "free"@ && month_limit(pro) == 3
            && upload_limit(pro, credits, free, paid) == free,
{
}

/// One more document takes its size in storage, unless it failed.
pub proof fn law_storage_counted(v: Seq<StoredView>, d: StoredView)
    ensures
        storage_of(v.push(d)) == storage_of(v) + (if d.status == "failed"@ {
            0
        } else {
            d.size_bytes
        }),
        storage_of(seq![]) == 0,
{
    assert(v.push(d).drop_last() =~= v);
}

/// A paid checkout is a purchase of who paid, with what the checkout says of offer and
/// customer; without an address it cannot be processed. A paid invoice keeps the
/// subscription of its customer running, a failed payment or a cancellation ends it, and
/// anything else does nothing.
pub proof fn law_event_effects(kind: Seq<char>, e: EventView)
    ensures
        kind == "checkout.session.completed"@ && e.payment_status == Some("paid"@)
            && e.details_email is Some ==> effect_of(kind, e) == Ok::<EffectView, Seq<char>>(
            EffectView::Purchased(
                PurchaseView {
                    checkout_id: or_empty(e.checkout_id),
                    email: lower(e.details_email->0),
                    offer: or_empty(e.offer),
                    customer_id: or_empty(e.customer),
                    subscription_id: or_empty(e.subscription),
                },
            ),
        ),
        kind == "checkout.session.completed"@ && e.payment_status == Some("paid"@)
            && e.details_email is None && e.customer_email is None ==> effect_of(kind, e) is Err,
        kind == "checkout.session.completed"@ && e.payment_status != Some("paid"@) ==> effect_of(
            kind,
            e,
        ) == Ok::<EffectView, Seq<char>>(EffectView::Nothing),
        kind == "invoice.paid"@ && e.customer is Some ==> effect_of(kind, e) == Ok::<
            EffectView,
            Seq<char>,
        >(EffectView::Subscription(e.customer->0, true)),
        (kind == "invoice.payment_failed"@ || kind == "customer.subscription.deleted"@)
            && e.customer is Some ==> effect_of(kind, e) == Ok::<EffectView, Seq<char>>(
            EffectView::Subscription(e.customer->0, false),
        ),
        kind != "checkout.session.completed"@ && e.customer is None ==> effect_of(kind, e) == Ok::<
            EffectView,
            Seq<char>,
        >(EffectView::Nothing),
        delivery(true, true, kind, e) == Ok::<EffectView, Seq<char>>(EffectView::Nothing),
        delivery(false, false, kind, e) is Err,
        delivery(false, true, kind, e) == effect_of(kind, e),
{
    reveal_strlit("checkout.session.completed");
    reveal_strlit("invoice.paid");
    reveal_strlit("invoice.payment_failed");
    reveal_strlit("customer.subscription.deleted");
    assert("checkout.session.completed"@.len() == 26);
    assert("invoice.paid"@.len() == 12);
    assert("invoice.payment_failed"@.len() == 22);
    assert("customer.subscription.deleted"@.len() == 29);
}

/// A single conversion brings one credit and one entry in the ledger of the same amount; a
/// subscription brings no credit and runs from then on.
pub proof fn law_purchases(account: AccountView, p: PurchaseView)
    ensures
        p.offer == "single"@ ==> {
            &&& with_purchase(account, p).single_credits == account.single_credits + 1
            &&& with_purchase(account, p).pro_active == account.pro_active
            &&& ledger_entry_of(p) is Some && ledger_entry_of(p)->0.amount == 1
            &&& ledger_entry_of(p)->0.id == "purchase:"@ + p.checkout_id
        },
        p.offer == "pro"@ ==> {
            &&& with_purchase(account, p).single_credits == account.single_credits
            &&& with_purchase(account, p).pro_active
            &&& ledger_entry_of(p) is None
        },
        p.customer_id.len() > 0 ==> with_purchase(account, p).customer_id == p.customer_id,
        p.customer_id.len() == 0 ==> with_purchase(account, p).customer_id == account.customer_id,
        p.subscription_id.len() > 0 ==> with_purchase(account, p).subscription_id
            == p.subscription_id,
        p.subscription_id.len() == 0 ==> with_purchase(account, p).subscription_id
            == account.subscription_id,
{
    reveal_strlit("single");
    reveal_strlit("pro");
    assert("single"@.len() == 6);
    assert("pro"@.len() == 3);
}

/// An address of a name, an at sign and a domain with a point inside is taken, where it has
/// at most 254 bytes; a text without a name, without an at sign or without a point behind it
/// is not. What is shown of an address is its first character and its domain.
pub proof fn law_addresses(local: Seq<char>, host: Seq<char>, top: Seq<char>)
    requires
        !local.contains('@'),
        host.len() > 0,
        top.len() > 0,
        host[0] != '.',
        top.last() != '.',
    ensures
        ({
            let domain = host + seq!['.'] + top;
            let address = local + seq!['@'] + domain;
            &&& email_shaped(address) <==> local.len() > 0 && size(address) <= 254
            &&& !email_shaped(local)
            &&& local.len() > 0 ==> email_hint(address) == seq![local[0]] + "***@"@ + domain
            &&& email_hint(local).len() == 0
        }),
{
    let domain = host + seq!['.'] + top;
    let address = local + seq!['@'] + domain;
    let n = local.len() as int;
    assert forall|i: int| 0 <= i < n implies local[i] != '@' by {
        assert(local.contains(local[i]));
    }
    assert forall|i: int| 0 <= i < n implies address[i] != '@' by {
        assert(address[i] == local[i]);
    }
    assert(address[n] == '@');
    lemma_position_of(address, '@', n);
    lemma_position_of(local, '@', n);
    assert(address.take(n) =~= local);
    assert(address.skip(n + 1) =~= domain);
    assert(domain[host.len() as int] == '.');
    assert(domain.contains('.'));
    reveal_strlit(".");
    assert("."@ =~= seq!['.']);
    assert(!"."@.is_prefix_of(domain)) by {
        if "."@.is_prefix_of(domain) {
            assert(domain.subrange(0, 1)[0] == '.');
            assert(domain[0] == host[0]);
        }
    }
    assert(!"."@.is_suffix_of(domain)) by {
        if "."@.is_suffix_of(domain) {
            let last = domain.len() - 1;
            assert(domain.subrange(last, domain.len() as int)[0] == '.');
            assert(domain[last] == top.last());
        }
    }
}

/// A review has one to five stars and at most 2000 characters; a support case has a subject
/// of 3 to 160 characters and a text of 10 to 5000. White space at the ends does not count.
pub proof fn law_reviews_and_cases(rating: nat, subject: Seq<char>, text: Seq<char>)
    ensures
        review_verdict(rating, text) is None <==> 1 <= rating && rating <= 5 && trim(text).len()
            <= 2000,
        support_verdict(subject, text) is None <==> trim(subject).len() >= 3 && trim(subject).len()
            <= 160 && trim(text).len() >= 10 && trim(text).len() <= 5000,
{
}

/// The administration is open to the token whose hash is set, and to none where none is set.
pub proof fn law_administration(hash: Seq<char>, supplied: Seq<char>)
    ensures
        admin_verdict(None, supplied) is Some && admin_verdict(None, supplied)->0.status == 404,
        supplied == hash ==> admin_verdict(Some(hash), supplied) is None,
        supplied != hash ==> admin_verdict(Some(hash), supplied) is Some && admin_verdict(
            Some(hash),
            supplied,
        )->0.status == 401,
{
}

/// Another e-mail is sent two minutes after the last one at the earliest.
pub proof fn law_mails_rest(ms: i64)
    ensures
        rested(Some(ms)) <==> ms >= 2 * 60 * 1000,
        rested(None),
{
}

/// A word that is not shown is covered character by character: what stands in front of it
/// stays, and it is as many asterisks as it has characters.
pub proof fn law_words_covered(s: Seq<char>, found: Seq<Seq<Option<FoundView>>>, n: nat)
    requires
        0 < n <= found.len(),
        found[n - 1].len() > 0,
        found[n - 1][0] is Some,
    ensures
        ({
            let before = masked_until(s, found, (n - 1) as nat);
            let after = masked_until(s, found, n);
            let word = found[n - 1][0]->0;
            let kept = crate::gaeb2000::byte_slice(s, before.1 as int, word.start as int);
            &&& after.1 == word.end
            &&& after.0.len() == before.0.len() + kept.len() + word.text.len()
            &&& (before.0 + kept).is_prefix_of(after.0)
            &&& forall|i: int|
                before.0.len() + kept.len() <= i < after.0.len() ==> #[trigger] after.0[i] == '*'
        }),
{
    let before = masked_until(s, found, (n - 1) as nat);
    let after = masked_until(s, found, n);
    let word = found[n - 1][0]->0;
    let kept = crate::gaeb2000::byte_slice(s, before.1 as int, word.start as int);
    assert(after.0.subrange(0, (before.0 + kept).len() as int) =~= before.0 + kept);
}

} // verus!
