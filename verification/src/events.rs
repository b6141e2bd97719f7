//! What the events of the payment service do to accounts.

use crate::billing::{is_json, json_text, parses, text_at};
use crate::document::{failure, Error};
use crate::model::opt_text;
use crate::text::{lower, lowered, same};
use vstd::prelude::*;

verus! {

/// What an event says of its object.
#[verifier::ext_equal]
pub struct EventView {
    pub payment_status: Option<Seq<char>>,
    pub checkout_id: Option<Seq<char>>,
    pub details_email: Option<Seq<char>>,
    pub customer_email: Option<Seq<char>>,
    pub offer: Option<Seq<char>>,
    pub customer: Option<Seq<char>>,
    pub subscription: Option<Seq<char>>,
}

/// What an event says of its object.
pub struct StripeObject {
    pub payment_status: Option<String>,
    pub checkout_id: Option<String>,
    pub details_email: Option<String>,
    pub customer_email: Option<String>,
    pub offer: Option<String>,
    pub customer: Option<String>,
    pub subscription: Option<String>,
}

impl View for StripeObject {
    type V = EventView;

    open spec fn view(&self) -> EventView {
        EventView {
            payment_status: opt_text(self.payment_status),
            checkout_id: opt_text(self.checkout_id),
            details_email: opt_text(self.details_email),
            customer_email: opt_text(self.customer_email),
            offer: opt_text(self.offer),
            customer: opt_text(self.customer),
            subscription: opt_text(self.subscription),
        }
    }
}

/// What the payload of an event says of its object.
pub open spec fn object_in(payload: Seq<char>) -> EventView {
    EventView {
        payment_status: json_text(payload, "/data/object/payment_status"@),
        checkout_id: json_text(payload, "/data/object/id"@),
        details_email: json_text(payload, "/data/object/customer_details/email"@),
        customer_email: json_text(payload, "/data/object/customer_email"@),
        offer: json_text(payload, "/data/object/metadata/offer"@),
        customer: json_text(payload, "/data/object/customer"@),
        subscription: json_text(payload, "/data/object/subscription"@),
    }
}

pub fn read_object(payload: &str) -> (r: StripeObject)
    ensures
        r@ == object_in(payload@),
{
    StripeObject {
        payment_status: text_at(payload, "/data/object/payment_status"),
        checkout_id: text_at(payload, "/data/object/id"),
        details_email: text_at(payload, "/data/object/customer_details/email"),
        customer_email: text_at(payload, "/data/object/customer_email"),
        offer: text_at(payload, "/data/object/metadata/offer"),
        customer: text_at(payload, "/data/object/customer"),
        subscription: text_at(payload, "/data/object/subscription"),
    }
}

/// What a purchase is.
#[verifier::ext_equal]
pub struct PurchaseView {
    pub checkout_id: Seq<char>,
    pub email: Seq<char>,
    pub offer: Seq<char>,
    pub customer_id: Seq<char>,
    pub subscription_id: Seq<char>,
}

/// A purchase that was paid.
pub struct Purchase {
    pub checkout_id: String,
    pub email: String,
    pub offer: String,
    pub customer_id: String,
    pub subscription_id: String,
}

impl View for Purchase {
    type V = PurchaseView;

    open spec fn view(&self) -> PurchaseView {
        PurchaseView {
            checkout_id: self.checkout_id@,
            email: self.email@,
            offer: self.offer@,
            customer_id: self.customer_id@,
            subscription_id: self.subscription_id@,
        }
    }
}

/// What an event does.
#[verifier::ext_equal]
pub enum EffectView {
    Nothing,
    Purchased(PurchaseView),
    /// The subscription of a customer runs, or does no longer.
    Subscription(Seq<char>, bool),
}

/// What an event does.
pub enum Effect {
    Nothing,
    Purchased(Purchase),
    /// The subscription of a customer runs, or does no longer.
    Subscription(String, bool),
}

impl View for Effect {
    type V = EffectView;

    open spec fn view(&self) -> EffectView {
        match self {
            Effect::Nothing => EffectView::Nothing,
            Effect::Purchased(purchase) => EffectView::Purchased(purchase@),
            Effect::Subscription(customer, runs) => EffectView::Subscription(customer@, *runs),
        }
    }
}

pub open spec fn or_empty(v: Option<Seq<char>>) -> Seq<char> {
    match v {
        Some(s) => s,
        None => seq![],
    }
}

fn text_or_empty(v: &Option<String>) -> (r: String)
    ensures
        r@ == or_empty(opt_text(*v)),
{
    match v {
        Some(s) => s.clone(),
        None => String::new(),
    }
}

/// The address of who paid.
pub open spec fn payer(e: EventView) -> Option<Seq<char>> {
    match e.details_email {
        Some(email) => Some(lower(email)),
        None => match e.customer_email {
            Some(email) => Some(lower(email)),
            None => None,
        },
    }
}

fn payer_of(e: &StripeObject) -> (r: Option<String>)
    ensures
        opt_text(r) == payer(e@),
{
    match &e.details_email {
        Some(email) => Some(lowered(email.as_str())),
        None => match &e.customer_email {
            Some(email) => Some(lowered(email.as_str())),
            None => None,
        },
    }
}

/// What an event of a kind does, or why it cannot be processed.
pub open spec fn effect_of(kind: Seq<char>, e: EventView) -> Result<EffectView, Seq<char>> {
    if kind == "checkout.session.completed"@ && e.payment_status == Some("paid"@) {
        match payer(e) {
            None => Err("Stripe-Checkout enthält keine E-Mail-Adresse"@),
            Some(email) => Ok(
                EffectView::Purchased(
                    PurchaseView {
                        checkout_id: or_empty(e.checkout_id),
                        email,
                        offer: or_empty(e.offer),
                        customer_id: or_empty(e.customer),
                        subscription_id: or_empty(e.subscription),
                    },
                ),
            ),
        }
    } else if kind == "invoice.paid"@ && e.customer is Some {
        Ok(EffectView::Subscription(e.customer->0, true))
    } else if (kind == "invoice.payment_failed"@ || kind == "customer.subscription.deleted"@)
        && e.customer is Some {
        Ok(EffectView::Subscription(e.customer->0, false))
    } else {
        Ok(EffectView::Nothing)
    }
}

pub open spec fn effect_outcome(r: Result<Effect, Error>) -> Result<EffectView, Seq<char>> {
    match r {
        Ok(effect) => Ok(effect@),
        Err(error) => Err(error@),
    }
}

fn is_paid(status: &Option<String>) -> (r: bool)
    ensures
        r == (opt_text(*status) == Some("paid"@)),
{
    match status {
        Some(s) => same(s.as_str(), "paid"),
        None => false,
    }
}

/// What an event of a kind does, given what it says of its object.
pub fn judge_event(kind: &str, e: &StripeObject) -> (r: Result<Effect, Error>)
    ensures
        effect_outcome(r) == effect_of(kind@, e@),
{
    proof {
        reveal_strlit("checkout.session.completed");
        reveal_strlit("invoice.paid");
        reveal_strlit("invoice.payment_failed");
        reveal_strlit("customer.subscription.deleted");
    }
    if same(kind, "checkout.session.completed") && is_paid(&e.payment_status) {
        return match payer_of(e) {
            None => Err(failure("Stripe-Checkout enthält keine E-Mail-Adresse")),
            Some(email) => Ok(
                Effect::Purchased(
                    Purchase {
                        checkout_id: text_or_empty(&e.checkout_id),
                        email,
                        offer: text_or_empty(&e.offer),
                        customer_id: text_or_empty(&e.customer),
                        subscription_id: text_or_empty(&e.subscription),
                    },
                ),
            ),
        };
    }
    match &e.customer {
        Some(customer) => {
            if same(kind, "invoice.paid") {
                Ok(Effect::Subscription(customer.clone(), true))
            } else if same(kind, "invoice.payment_failed") || same(
                kind,
                "customer.subscription.deleted",
            ) {
                Ok(Effect::Subscription(customer.clone(), false))
            } else {
                Ok(Effect::Nothing)
            }
        },
        None => Ok(Effect::Nothing),
    }
}

/// What a delivered event does: nothing if it was processed before.
pub open spec fn delivery(
    processed: bool,
    parsed: bool,
    kind: Seq<char>,
    e: EventView,
) -> Result<EffectView, Seq<char>> {
    if processed {
        Ok(EffectView::Nothing)
    } else if !parsed {
        Err("Ungültiges Stripe-Ereignis."@)
    } else {
        effect_of(kind, e)
    }
}

/// What a delivered event does: nothing if it was processed before.
pub fn apply_stripe_event(processed: bool, kind: &str, payload: &str) -> (r: Result<Effect, Error>)
    ensures
        effect_outcome(r) == delivery(processed, is_json(payload@), kind@, object_in(payload@)),
{
    if processed {
        return Ok(Effect::Nothing);
    }
    if !parses(payload) {
        return Err(failure("Ungültiges Stripe-Ereignis."));
    }
    let object = read_object(payload);
    judge_event(kind, &object)
}

/// Whether a purchase is confirmed to the customer.
pub open spec fn confirmed(offer: Seq<char>) -> bool {
    offer == "single"@ || offer == "pro"@
}

pub fn is_confirmed(offer: &str) -> (r: bool)
    ensures
        r == confirmed(offer@),
{
    same(offer, "single") || same(offer, "pro")
}

/// What the plan of a customer is.
#[verifier::ext_equal]
pub struct AccountView {
    pub customer_id: Seq<char>,
    pub subscription_id: Seq<char>,
    pub pro_active: bool,
    pub single_credits: int,
}

/// The plan of a customer.
pub struct Account {
    pub customer_id: String,
    pub subscription_id: String,
    pub pro_active: bool,
    pub single_credits: i64,
}

impl View for Account {
    type V = AccountView;

    open spec fn view(&self) -> AccountView {
        AccountView {
            customer_id: self.customer_id@,
            subscription_id: self.subscription_id@,
            pro_active: self.pro_active,
            single_credits: self.single_credits as int,
        }
    }
}

/// An account without anything.
pub open spec fn new_account() -> AccountView {
    AccountView {
        customer_id: seq![],
        subscription_id: seq![],
        pro_active: false,
        single_credits: 0,
    }
}

pub open spec fn known_or_new(account: Option<AccountView>) -> AccountView {
    match account {
        Some(account) => account,
        None => new_account(),
    }
}

pub open spec fn account_view(account: Option<Account>) -> Option<AccountView> {
    match account {
        Some(account) => Some(account@),
        None => None,
    }
}

pub open spec fn newer(value: Seq<char>, known: Seq<char>) -> Seq<char> {
    if value.len() > 0 {
        value
    } else {
        known
    }
}

/// An account after a purchase: a credit more for a single conversion, the subscription
/// for `pro`.
pub open spec fn with_purchase(account: AccountView, p: PurchaseView) -> AccountView {
    AccountView {
        customer_id: newer(p.customer_id, account.customer_id),
        subscription_id: newer(p.subscription_id, account.subscription_id),
        pro_active: account.pro_active || p.offer == "pro"@,
        single_credits: account.single_credits + if p.offer == "single"@ {
            1int
        } else {
            0int
        },
    }
}

/// An account after a purchase; nothing where the credits cannot be counted any more.
pub fn purchase(account: &Option<Account>, p: &Purchase) -> (r: Option<Account>)
    ensures
        (match r {
            Some(after) => after@ == with_purchase(known_or_new(account_view(*account)), p@),
            None => with_purchase(known_or_new(account_view(*account)), p@).single_credits
                > i64::MAX,
        }),
{
    let (customer_id, subscription_id, pro_active, single_credits) = match account {
        Some(a) => (a.customer_id.clone(), a.subscription_id.clone(), a.pro_active, a.single_credits),
        None => (String::new(), String::new(), false, 0),
    };
    let customer_id = if p.customer_id.as_str().is_empty() {
        customer_id
    } else {
        p.customer_id.clone()
    };
    let subscription_id = if p.subscription_id.as_str().is_empty() {
        subscription_id
    } else {
        p.subscription_id.clone()
    };
    let single_credits: i64 = if same(p.offer.as_str(), "single") {
        if single_credits == i64::MAX {
            return None;
        }
        single_credits + 1
    } else {
        single_credits
    };
    let after = Account {
        customer_id,
        subscription_id,
        pro_active: pro_active || same(p.offer.as_str(), "pro"),
        single_credits,
    };
    assert(after@ =~= with_purchase(known_or_new(account_view(*account)), p@));
    Some(after)
}

/// All accounts, and the events that were processed.
#[verifier::ext_equal]
pub struct Book {
    pub processed: Set<Seq<char>>,
    pub accounts: Map<Seq<char>, AccountView>,
}

/// All accounts after an effect.
pub open spec fn accounts_after(
    accounts: Map<Seq<char>, AccountView>,
    effect: EffectView,
) -> Map<Seq<char>, AccountView> {
    match effect {
        EffectView::Nothing => accounts,
        EffectView::Purchased(p) => accounts.insert(
            p.email,
            with_purchase(
                known_or_new(
                    if accounts.contains_key(p.email) {
                        Some(accounts[p.email])
                    } else {
                        None
                    },
                ),
                p,
            ),
        ),
        EffectView::Subscription(customer, runs) => accounts.map_values(
            |a: AccountView|
                if a.customer_id == customer {
                    AccountView { pro_active: runs, ..a }
                } else {
                    a
                },
        ),
    }
}

/// The book after an event was delivered; one that cannot be processed leaves it as it is.
pub open spec fn delivered(
    book: Book,
    id: Seq<char>,
    parsed: bool,
    kind: Seq<char>,
    e: EventView,
) -> Book {
    match delivery(book.processed.contains(id), parsed, kind, e) {
        Err(_) => book,
        Ok(effect) => Book {
            processed: book.processed.insert(id),
            accounts: accounts_after(book.accounts, effect),
        },
    }
}

/// An event that is delivered again changes nothing, whatever came in between.
pub proof fn law_repeated_event(
    book: Book,
    id: Seq<char>,
    parsed: bool,
    kind: Seq<char>,
    e: EventView,
)
    requires
        book.processed.contains(id),
    ensures
        delivered(book, id, parsed, kind, e) == book,
{
    assert(book.processed.insert(id) =~= book.processed);
}

/// A delivered event counts as processed, and stays so whatever else is delivered.
pub proof fn law_processed_stays(
    book: Book,
    id: Seq<char>,
    parsed: bool,
    kind: Seq<char>,
    e: EventView,
    known: Seq<char>,
)
    ensures
        delivery(book.processed.contains(id), parsed, kind, e) is Ok ==> delivered(
            book,
            id,
            parsed,
            kind,
            e,
        ).processed.contains(id),
        book.processed.contains(known) ==> delivered(
            book,
            id,
            parsed,
            kind,
            e,
        ).processed.contains(known),
{
}

/// A paid checkout of a single conversion gives exactly one credit, however often its
/// event is delivered.
pub proof fn law_paid_once(
    book: Book,
    id: Seq<char>,
    kind: Seq<char>,
    e: EventView,
)
    requires
        !book.processed.contains(id),
        kind == "checkout.session.completed"@,
        e.payment_status == Some("paid"@),
        e.offer == Some("single"@),
        payer(e) is Some,
    ensures
        ({
            let email = payer(e)->0;
            let before = if book.accounts.contains_key(email) {
                book.accounts[email].single_credits
            } else {
                0
            };
            let once = delivered(book, id, true, kind, e);
            let twice = delivered(once, id, true, kind, e);
            &&& once.accounts.contains_key(email)
            &&& once.accounts[email].single_credits == before + 1
            &&& twice == once
        }),
{
    let once = delivered(book, id, true, kind, e);
    assert(once.processed.contains(id));
    law_repeated_event(once, id, true, kind, e);
}

/// A purchase takes nothing away: the credits do not shrink, and a subscription that runs
/// goes on.
pub proof fn law_purchase_only_adds(account: AccountView, p: PurchaseView)
    ensures
        with_purchase(account, p).single_credits >= account.single_credits,
        account.pro_active ==> with_purchase(account, p).pro_active,
{
}

/// What is entered in the ledger of credits.
#[verifier::ext_equal]
pub struct LedgerEntryView {
    pub id: Seq<char>,
    pub amount: int,
    pub reason: Seq<char>,
}

/// What is entered in the ledger of credits.
pub struct LedgerEntry {
    pub id: String,
    pub amount: i64,
    pub reason: String,
}

impl View for LedgerEntry {
    type V = LedgerEntryView;

    open spec fn view(&self) -> LedgerEntryView {
        LedgerEntryView { id: self.id@, amount: self.amount as int, reason: self.reason@ }
    }
}

/// What a purchase enters in the ledger: a single conversion brings a credit.
pub open spec fn ledger_entry_of(bought: PurchaseView) -> Option<LedgerEntryView> {
    if bought.offer == "single"@ {
        Some(
            LedgerEntryView {
                id: "purchase:"@ + bought.checkout_id,
                amount: 1,
                reason: "purchase"@,
            },
        )
    } else {
        None
    }
}

pub fn ledger_entry(bought: &Purchase) -> (r: Option<LedgerEntry>)
    ensures
        (match r {
            Some(entry) => ledger_entry_of(bought@) == Some(entry@),
            None => ledger_entry_of(bought@) is None,
        }),
{
    if same(bought.offer.as_str(), "single") {
        Some(
            LedgerEntry {
                id: "purchase:".to_owned().concat(bought.checkout_id.as_str()),
                amount: 1,
                reason: "purchase".to_owned(),
            },
        )
    } else {
        None
    }
}

} // verus!
