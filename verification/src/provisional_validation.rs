//! Optional positions held against the sums that a document states.

use crate::decimal::{added, dec, subtracted, Dec, Decimal};
use crate::document::{failure, Error};
use crate::model::{
    group_model_views, node_views, opt_text, position_views, BillOfQuantities, BoqView, Node,
    NodeView, Position, PositionView,
};
use crate::parser::{german_number, overflow_message, parse_decimal, size, unit_price_only};
use crate::patterns::{
    all_groups, all_matches, captured_text, first_match, group_text, groups, is_matched, opt_groups,
    Found, FoundView, Pattern, MONEY, OZ_AT_START, PRICE_ROW, SUBTITLE_SUM,
};
use crate::price_cleanup::{
    agree, amount, close, decimal_text, money, price_of, to_cents, total_of,
};
use crate::text::{
    ascii_lowercase, chars, contains, ends_with, has, lemma_texts_push, lines, matches_at,
    normalize_line, parts, same, same_ignoring_case, single_spaced, slice, split, split_lines,
    texts, trim, trimmed,
};
use vstd::prelude::*;

verus! {

/// What the layout says of the price of a position.
#[verifier::ext_equal]
pub struct FactView {
    pub oz: Seq<char>,
    pub saw_price_row: bool,
    pub has_total: bool,
    pub explicit_price_only: bool,
}

/// What the layout says of the price of a position.
pub struct Fact {
    pub oz: String,
    pub saw_price_row: bool,
    pub has_total: bool,
    pub explicit_price_only: bool,
}

impl Fact {
    pub open spec fn state(self) -> FactView {
        FactView {
            oz: self.oz@,
            saw_price_row: self.saw_price_row,
            has_total: self.has_total,
            explicit_price_only: self.explicit_price_only,
        }
    }
}

/// A sum that the document states.
#[verifier::ext_equal]
pub struct StatedView {
    pub oz: Seq<char>,
    pub total: Dec,
}

/// A sum that the document states.
pub struct Stated {
    pub oz: String,
    pub total: Decimal,
}

impl Stated {
    pub open spec fn state(self) -> StatedView {
        StatedView { oz: self.oz@, total: self.total@ }
    }
}

/// What has been gathered from the layout.
#[verifier::ext_equal]
pub struct LayoutFacts {
    pub facts: Seq<FactView>,
    pub totals: Seq<StatedView>,
    /// Where the column of the totals starts on the page, in bytes.
    pub column: Option<nat>,
    pub current: Option<Seq<char>>,
}

/// The index of the first fact about a position, or the number of facts.
pub open spec fn fact_index(v: Seq<FactView>, oz: Seq<char>) -> nat
    decreases v.len(),
{
    if v.len() == 0 || v[0].oz == oz {
        0
    } else {
        1 + fact_index(v.skip(1), oz)
    }
}

/// Whether a total was seen in the column for it.
pub open spec fn total_seen(v: Seq<FactView>, oz: Seq<char>) -> bool {
    let n = fact_index(v, oz);
    n < v.len() && v[n as int].has_total
}

/// The facts with what one more line says.
pub open spec fn with_fact(
    v: Seq<FactView>,
    oz: Seq<char>,
    has_total: bool,
    explicit_price_only: bool,
) -> Seq<FactView> {
    let n = fact_index(v, oz) as int;
    if n < v.len() {
        v.update(
            n,
            FactView {
                oz,
                saw_price_row: true,
                has_total: v[n].has_total || has_total,
                explicit_price_only: v[n].explicit_price_only || explicit_price_only,
            },
        )
    } else {
        v.push(FactView { oz, saw_price_row: true, has_total, explicit_price_only })
    }
}

/// The sum that is stated last for a heading.
pub open spec fn stated_for(v: Seq<StatedView>, oz: Seq<char>) -> Option<Dec>
    decreases v.len(),
{
    if v.len() == 0 {
        None
    } else if v.last().oz == oz {
        Some(v.last().total)
    } else {
        stated_for(v.drop_last(), oz)
    }
}

/// Where `pattern` last stands in the first `n` characters and beyond, counted in bytes.
pub open spec fn last_at(s: Seq<char>, pattern: Seq<char>, n: nat) -> Option<nat>
    decreases n,
{
    if n <= s.len() && pattern.is_prefix_of(s.skip(n as int)) {
        Some(size(s.take(n as int)))
    } else if n == 0 {
        None
    } else {
        last_at(s, pattern, (n - 1) as nat)
    }
}

/// Whether a line names the columns.
pub open spec fn names_columns(raw: Seq<char>) -> bool {
    contains(raw, "OZ"@) && contains(raw, "Menge / Einheit"@) && contains(raw, "EP"@)
}

/// The amount of money behind a number, without its currency.
pub open spec fn amount_in(matched: Seq<char>) -> Option<Dec> {
    german_number(Some(trim(without_all(without_all(matched, "EUR"@), "€"@))))
}

/// A text without an ending, as often as it stands there.
pub open spec fn without_all(s: Seq<char>, ending: Seq<char>) -> Seq<char>
    decreases s.len(),
{
    if ending.len() > 0 && ending.is_suffix_of(s) {
        without_all(s.take(s.len() - ending.len()), ending)
    } else {
        s
    }
}

/// The last of the amounts of money found in a line.
pub open spec fn last_amount(found: Seq<Seq<Option<FoundView>>>) -> Option<Dec> {
    if found.len() == 0 {
        None
    } else {
        amount_in(group_text(found.last(), 0))
    }
}

/// Whether an amount of money starts at this byte or behind it.
pub open spec fn money_from(found: Seq<Seq<Option<FoundView>>>, from: int) -> bool {
    exists|i: int|
        0 <= i < found.len() && (#[trigger] found[i]).len() > 0 && found[i][0] is Some
            && found[i][0]->0.start >= from
}

/// Whether a line says that only the unit price is asked.
pub open spec fn says_price_only(line: Seq<char>) -> bool {
    contains(line, unit_price_only()) || ascii_lowercase(line) == ascii_lowercase(
        "Eventualposition ohne GB"@,
    )
}

/// What the patterns find in a line.
pub struct Finds {
    pub sum: Option<Vec<Option<Found>>>,
    pub position: Option<Vec<Option<Found>>>,
    pub price: bool,
    pub amounts: Vec<Vec<Option<Found>>>,
    pub raw_amounts: Vec<Vec<Option<Found>>>,
}

/// What patterns find in a line: a sum, the number of a position, a price, and the amounts
/// of money in it, with its white space made single blanks and as it was read.
#[verifier::ext_equal]
pub struct FindsView {
    pub sum: Option<Seq<Option<FoundView>>>,
    pub position: Option<Seq<Option<FoundView>>>,
    pub price: bool,
    pub amounts: Seq<Seq<Option<FoundView>>>,
    pub raw_amounts: Seq<Seq<Option<FoundView>>>,
}

impl View for Finds {
    type V = FindsView;

    open spec fn view(&self) -> FindsView {
        FindsView {
            sum: opt_groups(self.sum),
            position: opt_groups(self.position),
            price: self.price,
            amounts: all_groups(self.amounts@),
            raw_amounts: all_groups(self.raw_amounts@),
        }
    }
}

/// What the patterns find in a line.
pub open spec fn finds_in(raw: Seq<char>) -> FindsView {
    let line = single_spaced(raw);
    FindsView {
        sum: first_match(SUBTITLE_SUM@, line),
        position: first_match(OZ_AT_START@, line),
        price: is_matched(PRICE_ROW@, line),
        amounts: all_matches(MONEY@, line),
        raw_amounts: all_matches(MONEY@, raw),
    }
}

impl LayoutFacts {
    /// One more line of a page.
    pub open spec fn line(self, raw: Seq<char>) -> LayoutFacts {
        self.found(raw, finds_in(raw))
    }

    /// One more line of a page in which the patterns have found this.
    pub open spec fn found(self, raw: Seq<char>, finds: FindsView) -> LayoutFacts {
        let line = single_spaced(raw);
        let column = if names_columns(raw) {
            last_at(raw, "GB"@, raw.len())
        } else {
            self.column
        };
        let here = LayoutFacts { column, ..self };
        if line.len() == 0 {
            here
        } else {
            match finds.sum {
                Some(g) => here.summed(group_text(g, 1), finds.amounts),
                None => match finds.position {
                    Some(g) => (LayoutFacts {
                        current: Some(group_text(g, 1)),
                        ..here
                    }).noted(line, finds),
                    None => here.noted(line, finds),
                },
            }
        }
    }

    /// A line with a sum ends the position that is being read.
    pub open spec fn summed(
        self,
        oz: Seq<char>,
        amounts: Seq<Seq<Option<FoundView>>>,
    ) -> LayoutFacts {
        LayoutFacts {
            totals: match last_amount(amounts) {
                Some(total) => self.totals.push(StatedView { oz, total }),
                None => self.totals,
            },
            current: None,
            ..self
        }
    }

    /// What a line says of the position that is being read.
    pub open spec fn noted(self, line: Seq<char>, finds: FindsView) -> LayoutFacts {
        let only = says_price_only(line);
        let price = finds.price;
        match self.current {
            None => self,
            Some(oz) => if !price && !only {
                self
            } else {
                let has_total = match self.column {
                    Some(start) => money_from(
                        finds.raw_amounts,
                        if start > 0 {
                            start - 1
                        } else {
                            0
                        },
                    ),
                    None => price && !only && finds.amounts.len() >= 2,
                };
                LayoutFacts { facts: with_fact(self.facts, oz, has_total, only), ..self }
            },
        }
    }

    /// The first `n` lines of a page.
    pub open spec fn page_lines(self, all: Seq<Seq<char>>, n: nat) -> LayoutFacts
        decreases n,
    {
        if n == 0 {
            LayoutFacts { column: None, current: None, ..self }
        } else {
            self.page_lines(all, (n - 1) as nat).line(all[n - 1])
        }
    }
}

/// What the first `n` pages say.
pub open spec fn facts_until(pages: Seq<Seq<char>>, n: nat) -> LayoutFacts
    decreases n,
{
    if n == 0 {
        LayoutFacts { facts: seq![], totals: seq![], column: None, current: None }
    } else {
        let all = lines(pages[n - 1]);
        facts_until(pages, (n - 1) as nat).page_lines(all, all.len())
    }
}

/// What the layout of a document says.
pub open spec fn facts_of(text: Seq<char>) -> LayoutFacts {
    let pages = split(text, '\u{c}');
    facts_until(pages, pages.len())
}

proof fn lemma_fact_index(v: Seq<FactView>, oz: Seq<char>, n: int)
    requires
        0 <= n <= v.len(),
        forall|i: int| 0 <= i < n ==> (#[trigger] v[i]).oz != oz,
        n < v.len() ==> v[n].oz == oz,
    ensures
        fact_index(v, oz) == n,
    decreases v.len(),
{
    if n > 0 {
        assert forall|i: int| 0 <= i < n - 1 implies (#[trigger] v.skip(1)[i]).oz != oz by {
            assert(v.skip(1)[i] == v[i + 1]);
        }
        if n < v.len() {
            assert(v.skip(1)[n - 1] == v[n]);
        }
        lemma_fact_index(v.skip(1), oz, n - 1);
    }
}

struct Patterns {
    position: Pattern,
    price: Pattern,
    money: Pattern,
    sum: Pattern,
}

impl Patterns {
    spec fn ready(self) -> bool {
        &&& self.position@ == OZ_AT_START@
        &&& self.price@ == PRICE_ROW@
        &&& self.money@ == MONEY@
        &&& self.sum@ == SUBTITLE_SUM@
    }

    fn finds(&self, raw: &str) -> (r: Finds)
        requires
            self.ready(),
        ensures
            r@ == finds_in(raw@),
    {
        let line = normalize_line(raw);
        Finds {
            sum: self.sum.first(line.as_str()),
            position: self.position.first(line.as_str()),
            price: self.price.matches(line.as_str()),
            amounts: self.money.all(line.as_str()),
            raw_amounts: self.money.all(raw),
        }
    }
}

/// What is being gathered from the layout.
pub struct Gathering {
    pub facts: Vec<Fact>,
    pub totals: Vec<Stated>,
    pub column: Option<usize>,
    pub current: Option<String>,
}

pub open spec fn fact_views(v: Seq<Fact>) -> Seq<FactView> {
    Seq::new(v.len(), |i: int| v[i].state())
}

pub open spec fn stated_views(v: Seq<Stated>) -> Seq<StatedView> {
    Seq::new(v.len(), |i: int| v[i].state())
}

fn find_fact(v: &Vec<Fact>, oz: &str) -> (r: usize)
    ensures
        r == fact_index(fact_views(v@), oz@),
        r <= v@.len(),
{
    let ghost all = fact_views(v@);
    let mut i: usize = 0;
    while i < v.len() && !same(v[i].oz.as_str(), oz)
        invariant
            i <= v@.len(),
            all == fact_views(v@),
            forall|j: int| 0 <= j < i ==> (#[trigger] all[j]).oz != oz@,
        decreases v@.len() - i,
    {
        assert(all[i as int] == v@[i as int].state());
        i = i + 1;
    }
    proof {
        if i < v@.len() {
            assert(all[i as int] == v@[i as int].state());
        }
        lemma_fact_index(all, oz@, i as int);
    }
    i
}

fn has_total_in_column(v: &Vec<Fact>, oz: &str) -> (r: bool)
    ensures
        r == total_seen(fact_views(v@), oz@),
{
    let n = find_fact(v, oz);
    if n < v.len() {
        assert(fact_views(v@)[n as int] == v@[n as int].state());
        v[n].has_total
    } else {
        false
    }
}

fn find_stated(v: &Vec<Stated>, oz: &str) -> (r: Option<Decimal>)
    ensures
        dec(r) == stated_for(stated_views(v@), oz@),
{
    let ghost all = stated_views(v@);
    let mut i: usize = v.len();
    assert(all.take(all.len() as int) =~= all);
    while i > 0
        invariant
            i <= v@.len(),
            all == stated_views(v@),
            stated_for(all, oz@) == stated_for(all.take(i as int), oz@),
        decreases i,
    {
        assert(all.take(i as int).last() == v@[i - 1].state());
        assert(all.take(i as int).drop_last() =~= all.take(i - 1));
        if same(v[i - 1].oz.as_str(), oz) {
            return Some(v[i - 1].total);
        }
        i = i - 1;
    }
    None
}

fn find_last(s: &str, pattern: &str) -> (r: Option<usize>)
    ensures
        (match r {
            Some(n) => last_at(s@, pattern@, s@.len()) == Some(n as nat),
            None => last_at(s@, pattern@, s@.len()) is None,
        }),
{
    let v = chars(s);
    let p = chars(pattern);
    let mut n: usize = v.len();
    loop
        invariant
            v@ == s@,
            p@ == pattern@,
            n <= v@.len(),
            last_at(s@, pattern@, s@.len()) == last_at(s@, pattern@, n as nat),
        decreases n,
    {
        if matches_at(&v, n, &p) {
            let head = slice(&v, 0, n);
            assert(head@ =~= s@.take(n as int));
            return Some(head.as_str().as_bytes().len());
        }
        if n == 0 {
            return None;
        }
        n = n - 1;
    }
}

fn strip_all(s: &str, ending: &str) -> (r: String)
    requires
        ending@.len() > 0,
    ensures
        r@ == without_all(s@, ending@),
{
    let mut r = s.to_owned();
    while ends_with(r.as_str(), ending)
        invariant
            ending@.len() > 0,
            without_all(s@, ending@) == without_all(r@, ending@),
        decreases r@.len(),
    {
        let v = chars(r.as_str());
        let n: usize = ending.unicode_len();
        let cut = slice(&v, 0, v.len() - n);
        assert(cut@ =~= r@.take(r@.len() - ending@.len()));
        r = cut;
    }
    r
}

/// The last of the amounts of money found in a line.
pub fn last_money(found: &Vec<Vec<Option<Found>>>) -> (r: Option<Decimal>)
    ensures
        dec(r) == last_amount(all_groups(found@)),
{
    proof {
        reveal_strlit("EUR");
        reveal_strlit("€");
    }
    let ghost all = all_groups(found@);
    if found.len() == 0 {
        return None;
    }
    let n: usize = found.len() - 1;
    assert(all.last() == groups(found@[n as int]@));
    let matched = captured_text(&found[n], 0);
    let a = strip_all(matched.as_str(), "EUR");
    let b = strip_all(a.as_str(), "€");
    let c = trimmed(b.as_str());
    parse_decimal(Some(c.as_str()))
}

fn has_money_from(found: &Vec<Vec<Option<Found>>>, from: usize) -> (r: bool)
    ensures
        r == money_from(all_groups(found@), from as int),
{
    let ghost all = all_groups(found@);
    let mut i: usize = 0;
    while i < found.len()
        invariant
            i <= found@.len(),
            all == all_groups(found@),
            forall|j: int|
                0 <= j < i ==> !((#[trigger] all[j]).len() > 0 && all[j][0] is Some
                    && all[j][0]->0.start >= from),
        decreases found@.len() - i,
    {
        assert(all[i as int] == groups(found@[i as int]@));
        if found[i].len() > 0 {
            assert(all[i as int][0] == groups(found@[i as int]@)[0]);
            if let Some(f) = &found[i][0] {
                if f.start >= from {
                    return true;
                }
            }
        }
        i = i + 1;
    }
    false
}

impl Gathering {
    pub open spec fn state(self) -> LayoutFacts {
        LayoutFacts {
            facts: fact_views(self.facts@),
            totals: stated_views(self.totals@),
            column: match self.column {
                Some(n) => Some(n as nat),
                None => None,
            },
            current: opt_text(self.current),
        }
    }

    fn note(&mut self, line: &str, finds: &Finds)
        ensures
            final(self).state() == old(self).state().noted(line@, finds@),
    {
        let only = has(line, "Nur Einh.-Pr.") || same_ignoring_case(
            line,
            "Eventualposition ohne GB",
        );
        let price = finds.price;
        if !price && !only {
            return;
        }
        let oz = match &self.current {
            Some(oz) => oz.clone(),
            None => {
                return;
            },
        };
        let has_total = match self.column {
            Some(start) => has_money_from(
                &finds.raw_amounts,
                if start > 0 {
                    start - 1
                } else {
                    0
                },
            ),
            None => {
                assert(finds.amounts@.len() == finds@.amounts.len());
                price && !only && finds.amounts.len() >= 2
            },
        };
        let ghost before = fact_views(self.facts@);
        let n = find_fact(&self.facts, oz.as_str());
        if n < self.facts.len() {
            assert(before[n as int] == self.facts@[n as int].state());
            let fact = Fact {
                oz,
                saw_price_row: true,
                has_total: self.facts[n].has_total || has_total,
                explicit_price_only: self.facts[n].explicit_price_only || only,
            };
            let ghost changed = fact.state();
            self.facts.set(n, fact);
            assert(fact_views(self.facts@) =~= before.update(n as int, changed));
        } else {
            let fact = Fact { oz, saw_price_row: true, has_total, explicit_price_only: only };
            let ghost added = fact.state();
            self.facts.push(fact);
            assert(fact_views(self.facts@) =~= before.push(added));
        }
    }

    /// Takes one more line of a page, given what the patterns have found in it.
    pub fn take_line(&mut self, raw: &str, finds: &Finds)
        ensures
            final(self).state() == old(self).state().found(raw@, finds@),
    {
        if has(raw, "OZ") && has(raw, "Menge / Einheit") && has(raw, "EP") {
            self.column = find_last(raw, "GB");
        }
        let line = normalize_line(raw);
        if line.as_str().is_empty() {
            return;
        }
        if let Some(g) = &finds.sum {
            if let Some(total) = last_money(&finds.amounts) {
                let ghost before = stated_views(self.totals@);
                let stated = Stated { oz: captured_text(g, 1), total };
                let ghost added = stated.state();
                self.totals.push(stated);
                assert(stated_views(self.totals@) =~= before.push(added));
            }
            self.current = None;
            return;
        }
        if let Some(g) = &finds.position {
            self.current = Some(captured_text(g, 1));
        }
        self.note(line.as_str(), finds);
    }

    fn add_page(&mut self, text: &str, patterns: &Patterns)
        requires
            patterns.ready(),
        ensures
            final(self).state() == old(self).state().page_lines(lines(text@), lines(text@).len()),
    {
        let all = split_lines(text);
        let ghost read = lines(text@);
        assert(all@.len() == texts(all@).len());
        let ghost start = self.state();
        self.column = None;
        self.current = None;
        let mut i: usize = 0;
        while i < all.len()
            invariant
                i <= all@.len() == read.len(),
                texts(all@) == read,
                patterns.ready(),
                self.state() == start.page_lines(read, i as nat),
            decreases all@.len() - i,
        {
            assert(read[i as int] == all@[i as int]@);
            let finds = patterns.finds(all[i].as_str());
            self.take_line(all[i].as_str(), &finds);
            i = i + 1;
        }
    }
}

/// What the layout of a document says.
pub fn extract_layout_facts(text: &str) -> (r: Gathering)
    ensures
        r.state() == facts_of(text@),
{
    let patterns = Patterns {
        position: Pattern::new(OZ_AT_START),
        price: Pattern::new(PRICE_ROW),
        money: Pattern::new(MONEY),
        sum: Pattern::new(SUBTITLE_SUM),
    };
    let pages = parts(text, '\u{c}');
    let ghost all = split(text@, '\u{c}');
    assert(pages@.len() == texts(pages@).len());
    let mut r = Gathering { facts: Vec::new(), totals: Vec::new(), column: None, current: None };
    assert(r.state() =~= facts_until(all, 0));
    let mut i: usize = 0;
    while i < pages.len()
        invariant
            i <= pages@.len() == all.len(),
            texts(pages@) == all,
            patterns.ready(),
            r.state() == facts_until(all, i as nat),
        decreases pages@.len() - i,
    {
        assert(all[i as int] == pages@[i as int]@);
        r.add_page(pages[i].as_str(), &patterns);
        i = i + 1;
    }
    r
}

/// Whether a position is optional.
pub open spec fn optional(p: PositionView) -> bool {
    p.price_only || p.provisional
}

/// The total that a position would have: first whether the arithmetic goes through, then
/// the total, if there is enough to compute it.
pub open spec fn would_cost(p: PositionView) -> Option<Option<Dec>> {
    match p.total_price {
        Some(total) => Some(Some(to_cents(total))),
        None => if p.quantity is None || p.unit_price is None {
            Some(None)
        } else {
            match price_of(p.quantity->0, p.unit_price->0) {
                Some(total) => Some(Some(total)),
                None => None,
            }
        },
    }
}

pub fn expected_total(position: &Position) -> (r: Option<Option<Decimal>>)
    ensures
        (match r {
            Some(total) => would_cost(position@) == Some(dec(total)),
            None => would_cost(position@) is None,
        }),
{
    if let Some(total) = position.total_price {
        return Some(Some(money(total)));
    }
    match (position.quantity, position.unit_price) {
        (Some(quantity), Some(unit_price)) => match total_of(quantity, unit_price) {
            Some(total) => Some(Some(total)),
            None => None,
        },
        _ => Some(None),
    }
}

/// An optional position and the total that it would have.
#[verifier::ext_equal]
pub struct CandidateView {
    pub index: nat,
    pub value: Dec,
}

/// An optional position and the total that it would have.
#[derive(Clone, Copy)]
pub struct Candidate {
    pub index: usize,
    pub value: Decimal,
}

impl View for Candidate {
    type V = CandidateView;

    open spec fn view(&self) -> CandidateView {
        CandidateView { index: self.index as nat, value: self.value@ }
    }
}

pub open spec fn candidate_views(v: Seq<Candidate>) -> Seq<CandidateView> {
    Seq::new(v.len(), |i: int| v[i]@)
}

/// The optional ones of the first `n` positions whose total can be computed; nothing
/// where the arithmetic overflows.
pub open spec fn candidates_of(v: Seq<PositionView>, n: nat) -> Option<Seq<CandidateView>>
    decreases n,
{
    if n == 0 {
        Some(seq![])
    } else {
        let index = (n - 1) as nat;
        match candidates_of(v, index) {
            None => None,
            Some(before) => if optional(v[n - 1]) {
                match would_cost(v[n - 1]) {
                    None => None,
                    Some(None) => Some(before),
                    Some(Some(value)) => Some(before.push(CandidateView { index, value })),
                }
            } else {
                Some(before)
            },
        }
    }
}

proof fn lemma_no_candidates(v: Seq<PositionView>, n: nat, m: nat)
    requires
        n <= m,
        candidates_of(v, n) is None,
    ensures
        candidates_of(v, m) is None,
    decreases m,
{
    if n < m {
        lemma_no_candidates(v, n, (m - 1) as nat);
    }
}

/// Every candidate stands for a position.
pub open spec fn within(c: Seq<CandidateView>, n: nat) -> bool {
    forall|i: int| 0 <= i < c.len() ==> (#[trigger] c[i]).index < n
}

fn find_candidates(v: &Vec<Position>) -> (r: Option<Vec<Candidate>>)
    ensures
        (match r {
            Some(found) => candidates_of(position_views(v@), v@.len()) == Some(
                candidate_views(found@),
            ) && within(candidate_views(found@), v@.len()),
            None => candidates_of(position_views(v@), v@.len()) is None,
        }),
{
    let ghost all = position_views(v@);
    let mut found: Vec<Candidate> = Vec::new();
    let mut i: usize = 0;
    assert(candidate_views(found@) =~= seq![]);
    while i < v.len()
        invariant
            i <= v@.len(),
            all == position_views(v@),
            candidates_of(all, i as nat) == Some(candidate_views(found@)),
            within(candidate_views(found@), i as nat),
        decreases v@.len() - i,
    {
        assert(all[i as int] == v@[i as int]@);
        if v[i].price_only || v[i].provisional {
            match expected_total(&v[i]) {
                None => {
                    proof {
                        lemma_no_candidates(all, (i + 1) as nat, all.len());
                    }
                    return None;
                },
                Some(None) => {},
                Some(Some(value)) => {
                    let ghost before = candidate_views(found@);
                    let next = Candidate { index: i, value };
                    let ghost added = next@;
                    found.push(next);
                    assert(candidate_views(found@) =~= before.push(added));
                },
            }
        }
        i = i + 1;
    }
    Some(found)
}

/// The candidates that a number picks by its binary digits, from `from` on.
pub open spec fn picks(mask: nat, from: nat, n: nat) -> Seq<nat>
    decreases n - from,
{
    if from >= n {
        seq![]
    } else if mask % 2 == 1 {
        seq![from] + picks(mask / 2, from + 1, n)
    } else {
        picks(mask / 2, from + 1, n)
    }
}

/// The sum of the first `k` picked candidates; nothing where it overflows.
pub open spec fn sum_of(c: Seq<CandidateView>, picked: Seq<nat>, k: nat) -> Option<Dec>
    decreases k,
{
    if k == 0 {
        Some(Dec { mantissa: 0, scale: 0 })
    } else {
        match sum_of(c, picked, (k - 1) as nat) {
            Some(before) => added(before, c[picked[k - 1] as int].value),
            None => None,
        }
    }
}

/// How many of the first `k` picked candidates have a total in the column for it.
pub open spec fn score_of(
    c: Seq<CandidateView>,
    picked: Seq<nat>,
    positions: Seq<PositionView>,
    facts: Seq<FactView>,
    k: nat,
) -> nat
    decreases k,
{
    if k == 0 {
        0
    } else {
        score_of(c, picked, positions, facts, (k - 1) as nat) + if total_seen(
            facts,
            positions[c[picked[k - 1] as int].index as int].oz,
        ) {
            1nat
        } else {
            0nat
        }
    }
}

/// Whether picked candidates make up an amount; nothing where the arithmetic overflows.
pub open spec fn makes_up(c: Seq<CandidateView>, picked: Seq<nat>, required: Dec) -> Option<bool> {
    match sum_of(c, picked, picked.len()) {
        Some(sum) => agree(to_cents(sum), required),
        None => None,
    }
}

/// A choice of candidates with its score.
#[verifier::ext_equal]
pub struct Choice {
    pub score: nat,
    pub picked: Seq<nat>,
}

pub open spec fn choice_of(
    c: Seq<CandidateView>,
    mask: nat,
    positions: Seq<PositionView>,
    facts: Seq<FactView>,
) -> Choice {
    let picked = picks(mask, 0, c.len());
    Choice { score: score_of(c, picked, positions, facts, picked.len()), picked }
}

/// A higher score is better, and at equal scores fewer positions are.
pub open spec fn better(a: Choice, b: Choice) -> bool {
    a.score > b.score || (a.score == b.score && a.picked.len() < b.picked.len())
}

/// The first of the best choices below a mask that make up an amount: first whether the
/// arithmetic goes through, then the choice.
pub open spec fn best_choice(
    c: Seq<CandidateView>,
    required: Dec,
    positions: Seq<PositionView>,
    facts: Seq<FactView>,
    mask: nat,
) -> Option<Option<Choice>>
    decreases mask,
{
    if mask <= 1 {
        Some(None)
    } else {
        let next = choice_of(c, (mask - 1) as nat, positions, facts);
        match (
            best_choice(c, required, positions, facts, (mask - 1) as nat),
            makes_up(c, next.picked, required),
        ) {
            (Some(before), Some(fits)) => if fits && (before is None || better(next, before->0)) {
                Some(Some(next))
            } else {
                Some(before)
            },
            _ => None,
        }
    }
}

/// Two to the power of `n`.
pub open spec fn two_to(n: nat) -> nat
    decreases n,
{
    if n == 0 {
        1
    } else {
        2 * two_to((n - 1) as nat)
    }
}

/// Those of the first `n` candidates that make up an amount alone.
pub open spec fn singles(c: Seq<CandidateView>, required: Dec, n: nat) -> Option<Seq<nat>>
    decreases n,
{
    if n == 0 {
        Some(seq![])
    } else {
        match (singles(c, required, (n - 1) as nat), agree(c[n - 1].value, required)) {
            (Some(before), Some(fits)) => Some(
                if fits {
                    before.push((n - 1) as nat)
                } else {
                    before
                },
            ),
            _ => None,
        }
    }
}

/// The candidates that make up an amount: of up to 16 the best choice, of more only a
/// single one that no other rivals.
pub open spec fn matching(
    c: Seq<CandidateView>,
    required: Dec,
    positions: Seq<PositionView>,
    facts: Seq<FactView>,
) -> Option<Option<Seq<nat>>> {
    if c.len() <= 16 {
        match best_choice(c, required, positions, facts, two_to(c.len())) {
            Some(Some(choice)) => Some(Some(choice.picked)),
            Some(None) => Some(None),
            None => None,
        }
    } else {
        match singles(c, required, c.len()) {
            Some(found) => Some(
                if found.len() == 1 {
                    Some(found)
                } else {
                    None
                },
            ),
            None => None,
        }
    }
}

/// What is picked makes up the amount, and no other choice that does is better.
pub proof fn law_best_choice(
    c: Seq<CandidateView>,
    required: Dec,
    positions: Seq<PositionView>,
    facts: Seq<FactView>,
    mask: nat,
)
    requires
        best_choice(c, required, positions, facts, mask) is Some,
    ensures
        (match best_choice(c, required, positions, facts, mask)->0 {
            Some(choice) => makes_up(c, choice.picked, required) == Some(true) && forall|m: nat|
                0 < m < mask && #[trigger] makes_up(c, picks(m, 0, c.len()), required) == Some(true)
                    ==> !better(choice_of(c, m, positions, facts), choice),
            None => forall|m: nat|
                0 < m < mask ==> #[trigger] makes_up(c, picks(m, 0, c.len()), required) != Some(
                    true,
                ),
        }),
    decreases mask,
{
    if mask > 1 {
        law_best_choice(c, required, positions, facts, (mask - 1) as nat);
    }
}

pub open spec fn pick_views(v: Seq<usize>) -> Seq<nat> {
    Seq::new(v.len(), |i: int| v[i] as nat)
}

/// Picked candidates exist.
pub proof fn lemma_picks_within(mask: nat, from: nat, n: nat)
    ensures
        forall|i: int|
            0 <= i < picks(mask, from, n).len() ==> from <= #[trigger] picks(mask, from, n)[i] < n,
        picks(mask, from, n).len() <= (if from < n {
            n - from
        } else {
            0
        }),
    decreases n - from,
{
    if from < n {
        lemma_picks_within(mask / 2, from + 1, n);
    }
}

fn pick(mask: usize, n: usize) -> (r: Vec<usize>)
    ensures
        pick_views(r@) == picks(mask as nat, 0, n as nat),
{
    let mut r: Vec<usize> = Vec::new();
    let mut rest: usize = mask;
    let mut i: usize = 0;
    assert(pick_views(r@) + picks(mask as nat, 0, n as nat) =~= picks(mask as nat, 0, n as nat));
    while i < n
        invariant
            i <= n,
            pick_views(r@) + picks(rest as nat, i as nat, n as nat) == picks(mask as nat, 0, n as nat),
        decreases n - i,
    {
        let ghost before = pick_views(r@);
        let ghost after = picks(rest as nat / 2, (i + 1) as nat, n as nat);
        if rest % 2 == 1 {
            r.push(i);
            assert(pick_views(r@) =~= before.push(i as nat));
            assert(before + (seq![i as nat] + after) =~= before.push(i as nat) + after);
        }
        rest = rest / 2;
        i = i + 1;
    }
    assert(pick_views(r@) + picks(rest as nat, n as nat, n as nat) =~= pick_views(r@));
    r
}

fn sum_picked(c: &Vec<Candidate>, picked: &Vec<usize>) -> (r: Option<Decimal>)
    requires
        forall|i: int| 0 <= i < picked@.len() ==> #[trigger] picked@[i] < c@.len(),
    ensures
        dec(r) == sum_of(candidate_views(c@), pick_views(picked@), picked@.len()),
{
    let ghost all = candidate_views(c@);
    let ghost chosen = pick_views(picked@);
    let mut sum: Option<Decimal> = Some(Decimal::new(0, 0));
    let mut i: usize = 0;
    while i < picked.len()
        invariant
            i <= picked@.len(),
            all == candidate_views(c@),
            chosen == pick_views(picked@),
            forall|j: int| 0 <= j < picked@.len() ==> #[trigger] picked@[j] < c@.len(),
            dec(sum) == sum_of(all, chosen, i as nat),
        decreases picked@.len() - i,
    {
        assert(all[chosen[i as int] as int] == c@[picked@[i as int] as int]@);
        sum = match sum {
            Some(before) => before.checked_add(c[picked[i]].value),
            None => None,
        };
        i = i + 1;
    }
    sum
}

fn score_picked(
    c: &Vec<Candidate>,
    picked: &Vec<usize>,
    positions: &Vec<Position>,
    facts: &Vec<Fact>,
) -> (r: usize)
    requires
        forall|i: int| 0 <= i < picked@.len() ==> #[trigger] picked@[i] < c@.len(),
        within(candidate_views(c@), positions@.len()),
    ensures
        r == score_of(
            candidate_views(c@),
            pick_views(picked@),
            position_views(positions@),
            fact_views(facts@),
            picked@.len(),
        ),
{
    let ghost all = candidate_views(c@);
    let ghost chosen = pick_views(picked@);
    let mut score: usize = 0;
    let mut i: usize = 0;
    while i < picked.len()
        invariant
            i <= picked@.len(),
            score <= i,
            all == candidate_views(c@),
            chosen == pick_views(picked@),
            within(all, positions@.len()),
            forall|j: int| 0 <= j < picked@.len() ==> #[trigger] picked@[j] < c@.len(),
            score == score_of(
                all,
                chosen,
                position_views(positions@),
                fact_views(facts@),
                i as nat,
            ),
        decreases picked@.len() - i,
    {
        assert(all[chosen[i as int] as int] == c@[picked@[i as int] as int]@);
        let at: usize = c[picked[i]].index;
        assert(all[chosen[i as int] as int].index < positions@.len());
        assert(position_views(positions@)[at as int] == positions@[at as int]@);
        if has_total_in_column(facts, positions[at].oz.as_str()) {
            score = score + 1;
        }
        i = i + 1;
    }
    score
}

proof fn lemma_no_choice(
    c: Seq<CandidateView>,
    required: Dec,
    positions: Seq<PositionView>,
    facts: Seq<FactView>,
    n: nat,
    m: nat,
)
    requires
        n <= m,
        best_choice(c, required, positions, facts, n) is None,
    ensures
        best_choice(c, required, positions, facts, m) is None,
    decreases m,
{
    if n < m {
        lemma_no_choice(c, required, positions, facts, n, (m - 1) as nat);
    }
}

struct Chosen {
    score: usize,
    picked: Vec<usize>,
}

impl Chosen {
    spec fn state(self) -> Choice {
        Choice { score: self.score as nat, picked: pick_views(self.picked@) }
    }
}

spec fn chosen_view(v: Option<Chosen>) -> Option<Choice> {
    match v {
        Some(choice) => Some(choice.state()),
        None => None,
    }
}

proof fn lemma_two_to(n: nat)
    requires
        n <= 16,
    ensures
        two_to(n) <= 65536,
    decreases 16 - n,
{
    if n == 16 {
        reveal_with_fuel(two_to, 17);
    } else {
        lemma_two_to(n + 1);
    }
}

fn power_of_two(n: usize) -> (r: usize)
    requires
        n <= 16,
    ensures
        r == two_to(n as nat),
        1 <= r <= 65536,
{
    let mut r: usize = 1;
    let mut i: usize = 0;
    while i < n
        invariant
            i <= n <= 16,
            r == two_to(i as nat),
            1 <= r <= 65536,
        decreases n - i,
    {
        proof {
            lemma_two_to((i + 1) as nat);
        }
        r = 2 * r;
        i = i + 1;
    }
    r
}

fn search(
    c: &Vec<Candidate>,
    required: Decimal,
    positions: &Vec<Position>,
    facts: &Vec<Fact>,
) -> (r: Option<Option<Chosen>>)
    requires
        c@.len() <= 16,
        within(candidate_views(c@), positions@.len()),
    ensures
        (match r {
            Some(choice) => best_choice(
                candidate_views(c@),
                required@,
                position_views(positions@),
                fact_views(facts@),
                two_to(c@.len()),
            ) == Some(chosen_view(choice)),
            None => best_choice(
                candidate_views(c@),
                required@,
                position_views(positions@),
                fact_views(facts@),
                two_to(c@.len()),
            ) is None,
        }),
        r is Some && r->0 is Some ==> forall|i: int|
            0 <= i < r->0->0.picked@.len() ==> #[trigger] r->0->0.picked@[i] < c@.len(),
{
    let ghost all = candidate_views(c@);
    let ghost of = position_views(positions@);
    let ghost known = fact_views(facts@);
    let n: usize = c.len();
    let limit = power_of_two(n);
    let mut best: Option<Chosen> = None;
    let mut mask: usize = 1;
    while mask < limit
        invariant
            1 <= mask <= limit <= 65536,
            limit == two_to(n as nat),
            n == c@.len() <= 16,
            all == candidate_views(c@),
            of == position_views(positions@),
            known == fact_views(facts@),
            within(all, positions@.len()),
            best_choice(all, required@, of, known, mask as nat) == Some(chosen_view(best)),
            best is Some ==> forall|i: int|
                0 <= i < best->0.picked@.len() ==> #[trigger] best->0.picked@[i] < c@.len(),
        decreases limit - mask,
    {
        let picked = pick(mask, n);
        proof {
            lemma_picks_within(mask as nat, 0, n as nat);
            assert forall|i: int| 0 <= i < picked@.len() implies #[trigger] picked@[i] < c@.len() by {
                assert(pick_views(picked@)[i] == picked@[i]);
            }
            assert(pick_views(picked@).len() == picked@.len());
        }
        let ghost next = choice_of(all, mask as nat, of, known);
        assert(next.picked == pick_views(picked@));
        let fits = match sum_picked(c, &picked) {
            Some(sum) => close(money(sum), required),
            None => None,
        };
        assert(fits == makes_up(all, next.picked, required@));
        match fits {
            None => {
                proof {
                    lemma_no_choice(all, required@, of, known, (mask + 1) as nat, limit as nat);
                }
                return None;
            },
            Some(fits) => {
                let score = score_picked(c, &picked, positions, facts);
                let wins = fits && match &best {
                    None => true,
                    Some(b) => score > b.score || (score == b.score && picked.len()
                        < b.picked.len()),
                };
                if wins {
                    best = Some(Chosen { score, picked });
                }
            },
        }
        mask = mask + 1;
    }
    Some(best)
}

proof fn lemma_no_singles(c: Seq<CandidateView>, required: Dec, n: nat, m: nat)
    requires
        n <= m,
        singles(c, required, n) is None,
    ensures
        singles(c, required, m) is None,
    decreases m,
{
    if n < m {
        lemma_no_singles(c, required, n, (m - 1) as nat);
    }
}

fn find_singles(c: &Vec<Candidate>, required: Decimal) -> (r: Option<Vec<usize>>)
    ensures
        (match r {
            Some(found) => singles(candidate_views(c@), required@, c@.len()) == Some(
                pick_views(found@),
            ),
            None => singles(candidate_views(c@), required@, c@.len()) is None,
        }),
        r is Some ==> forall|i: int|
            0 <= i < r->0@.len() ==> #[trigger] r->0@[i] < c@.len(),
{
    let ghost all = candidate_views(c@);
    let mut found: Vec<usize> = Vec::new();
    let mut i: usize = 0;
    assert(pick_views(found@) =~= seq![]);
    while i < c.len()
        invariant
            i <= c@.len(),
            all == candidate_views(c@),
            singles(all, required@, i as nat) == Some(pick_views(found@)),
            forall|j: int| 0 <= j < found@.len() ==> #[trigger] found@[j] < i,
        decreases c@.len() - i,
    {
        assert(all[i as int] == c@[i as int]@);
        match close(c[i].value, required) {
            None => {
                proof {
                    lemma_no_singles(all, required@, (i + 1) as nat, all.len());
                }
                return None;
            },
            Some(fits) => {
                if fits {
                    let ghost before = pick_views(found@);
                    found.push(i);
                    assert(pick_views(found@) =~= before.push(i as nat));
                }
            },
        }
        i = i + 1;
    }
    Some(found)
}

/// The candidates that make up an amount: first whether the arithmetic goes through, then
/// the candidates.
pub fn matching_subset(
    c: &Vec<Candidate>,
    required: Decimal,
    positions: &Vec<Position>,
    facts: &Vec<Fact>,
) -> (r: Option<Option<Vec<usize>>>)
    requires
        within(candidate_views(c@), positions@.len()),
    ensures
        (match r {
            Some(Some(picked)) => matching(
                candidate_views(c@),
                required@,
                position_views(positions@),
                fact_views(facts@),
            ) == Some(Some(pick_views(picked@))),
            Some(None) => matching(
                candidate_views(c@),
                required@,
                position_views(positions@),
                fact_views(facts@),
            ) == Some(None::<Seq<nat>>),
            None => matching(
                candidate_views(c@),
                required@,
                position_views(positions@),
                fact_views(facts@),
            ) is None,
        }),
        r is Some && r->0 is Some ==> forall|i: int|
            0 <= i < r->0->0@.len() ==> #[trigger] r->0->0@[i] < c@.len(),
{
    assert(candidate_views(c@).len() == c@.len());
    if c.len() <= 16 {
        match search(c, required, positions, facts) {
            Some(Some(choice)) => Some(Some(choice.picked)),
            Some(None) => Some(None),
            None => None,
        }
    } else {
        match find_singles(c, required) {
            Some(found) => {
                assert(pick_views(found@).len() == found@.len());
                if found.len() == 1 {
                    Some(Some(found))
                } else {
                    Some(None)
                }
            },
            None => None,
        }
    }
}

/// A warning about each of the first `n` candidates for which a total was seen.
pub open spec fn seen_warnings(
    label: Seq<char>,
    remark: Seq<char>,
    c: Seq<CandidateView>,
    positions: Seq<PositionView>,
    facts: Seq<FactView>,
    n: nat,
) -> Seq<Seq<char>>
    decreases n,
{
    if n == 0 {
        seq![]
    } else {
        let before = seen_warnings(label, remark, c, positions, facts, (n - 1) as nat);
        let oz = positions[c[n - 1].index as int].oz;
        if total_seen(facts, oz) {
            before.push(label + oz + remark)
        } else {
            before
        }
    }
}

/// The sum of the totals of those of the first `n` positions that are not optional;
/// nothing where it overflows.
pub open spec fn regular_sum(v: Seq<PositionView>, n: nat) -> Option<Dec>
    decreases n,
{
    if n == 0 {
        Some(Dec { mantissa: 0, scale: 0 })
    } else {
        match (regular_sum(v, (n - 1) as nat), v[n - 1].total_price) {
            (Some(before), Some(total)) => if optional(v[n - 1]) {
                Some(before)
            } else {
                added(before, total)
            },
            (before, _) => before,
        }
    }
}

/// A position that turned out not to be optional.
pub open spec fn made_regular(p: PositionView, total: Dec) -> PositionView {
    PositionView { provisional: false, price_only: false, total_price: Some(total), ..p }
}

/// The positions with the first `k` picked candidates made regular.
pub open spec fn restored(
    v: Seq<PositionView>,
    c: Seq<CandidateView>,
    picked: Seq<nat>,
    k: nat,
) -> Seq<PositionView>
    decreases k,
{
    if k == 0 {
        v
    } else {
        let before = restored(v, c, picked, (k - 1) as nat);
        let next = c[picked[k - 1] as int];
        before.update(next.index as int, made_regular(before[next.index as int], next.value))
    }
}

/// What is said of the first `k` picked candidates.
pub open spec fn restored_warnings(
    v: Seq<PositionView>,
    c: Seq<CandidateView>,
    picked: Seq<nat>,
    k: nat,
) -> Seq<Seq<char>>
    decreases k,
{
    if k == 0 {
        seq![]
    } else {
        let next = c[picked[k - 1] as int];
        restored_warnings(v, c, picked, (k - 1) as nat).push(
            "Eventualposition korrigiert: "@ + v[next.index as int].oz
                + " – Untertitelsumme enthält die Position; GP "@ + amount(next.value) + " gesetzt"@,
        )
    }
}

/// The positions of a subtitle with what is said of them.
#[verifier::ext_equal]
pub struct Checked {
    pub positions: Seq<PositionView>,
    pub warnings: Seq<Seq<char>>,
}

/// The positions of a subtitle held against its stated sum.
pub open spec fn held_against(
    oz: Seq<char>,
    v: Seq<PositionView>,
    c: Seq<CandidateView>,
    reported: Dec,
    base: Dec,
    facts: Seq<FactView>,
) -> Option<Checked> {
    match subtracted(reported, base) {
        None => None,
        Some(rest) => {
            let required = to_cents(rest);
            match agree(required, Dec { mantissa: 0, scale: 0 }) {
                None => None,
                Some(true) => Some(
                    Checked {
                        positions: v,
                        warnings: seen_warnings(
                            "Eventualposition bestätigt durch Untertitelsumme, aber GB-Spalte auffällig: "@,
                            ""@,
                            c,
                            v,
                            facts,
                            c.len(),
                        ),
                    },
                ),
                Some(false) => match matching(c, required, v, facts) {
                    None => None,
                    Some(None) => Some(
                        Checked {
                            positions: v,
                            warnings: seq![
                                "Untertitelsumme prüfen: "@ + oz + " – ausgewiesen "@ + amount(
                                    reported,
                                ) + ", aus regulären Positionen "@ + amount(base) + ", Differenz "@
                                    + amount(required),
                            ],
                        },
                    ),
                    Some(Some(picked)) => Some(
                        Checked {
                            positions: restored(v, c, picked, picked.len()),
                            warnings: restored_warnings(v, c, picked, picked.len()),
                        },
                    ),
                },
            }
        },
    }
}

/// The positions of a subtitle checked; nothing where the arithmetic overflows.
pub open spec fn checked_subtitle(
    oz: Seq<char>,
    v: Seq<PositionView>,
    facts: Seq<FactView>,
    totals: Seq<StatedView>,
) -> Option<Checked> {
    match candidates_of(v, v.len()) {
        None => None,
        Some(c) => if c.len() == 0 {
            Some(Checked { positions: v, warnings: seq![] })
        } else {
            match stated_for(totals, oz) {
                None => Some(
                    Checked {
                        positions: v,
                        warnings: seen_warnings(
                            "Eventualposition prüfen: "@,
                            " – in der GB-Spalte wurde ein Gesamtpreis erkannt, aber keine Untertitelsumme gefunden"@,
                            c,
                            v,
                            facts,
                            c.len(),
                        ),
                    },
                ),
                Some(reported) => match regular_sum(v, v.len()) {
                    None => None,
                    Some(base) => held_against(oz, v, c, reported, to_cents(base), facts),
                },
            }
        },
    }
}

/// The tree with its subtitles checked, and the warnings.
pub open spec fn checked_tree(
    nodes: Seq<NodeView>,
    facts: Seq<FactView>,
    totals: Seq<StatedView>,
) -> Option<(Seq<NodeView>, Seq<Seq<char>>)>
    decreases nodes,
{
    if nodes.len() == 0 {
        Some((seq![], seq![]))
    } else {
        let node = nodes.last();
        let own = if node.level == 3 {
            checked_subtitle(node.oz, node.positions, facts, totals)
        } else {
            Some(Checked { positions: node.positions, warnings: seq![] })
        };
        match (
            checked_tree(nodes.drop_last(), facts, totals),
            own,
            checked_tree(node.children, facts, totals),
        ) {
            (Some((before, first)), Some(own), Some((children, below))) => Some(
                (
                    before.push(NodeView { positions: own.positions, children, ..node }),
                    first + own.warnings + below,
                ),
            ),
            _ => None,
        }
    }
}

fn warn_seen(
    label: &str,
    remark: &str,
    c: &Vec<Candidate>,
    positions: &Vec<Position>,
    facts: &Vec<Fact>,
    warnings: &mut Vec<String>,
)
    requires
        within(candidate_views(c@), positions@.len()),
    ensures
        texts(final(warnings)@) == texts(old(warnings)@) + seen_warnings(
            label@,
            remark@,
            candidate_views(c@),
            position_views(positions@),
            fact_views(facts@),
            c@.len(),
        ),
{
    broadcast use lemma_texts_push;
    let ghost all = candidate_views(c@);
    let ghost of = position_views(positions@);
    let ghost known = fact_views(facts@);
    let ghost start = texts(warnings@);
    let mut i: usize = 0;
    assert(start + seen_warnings(label@, remark@, all, of, known, 0) =~= start);
    while i < c.len()
        invariant
            i <= c@.len(),
            all == candidate_views(c@),
            of == position_views(positions@),
            known == fact_views(facts@),
            within(all, positions@.len()),
            texts(warnings@) == start + seen_warnings(label@, remark@, all, of, known, i as nat),
        decreases c@.len() - i,
    {
        broadcast use lemma_texts_push;
        assert(all[i as int] == c@[i as int]@);
        let at: usize = c[i].index;
        assert(of[at as int] == positions@[at as int]@);
        let ghost before = texts(warnings@);
        if has_total_in_column(facts, positions[at].oz.as_str()) {
            let text = label.to_owned().concat(positions[at].oz.as_str()).concat(remark);
            warnings.push(text);
            assert(before.push(label@ + of[at as int].oz + remark@) =~= start + seen_warnings(
                label@,
                remark@,
                all,
                of,
                known,
                (i + 1) as nat,
            ));
        }
        i = i + 1;
    }
}

fn sum_regular(v: &Vec<Position>) -> (r: Option<Decimal>)
    ensures
        dec(r) == regular_sum(position_views(v@), v@.len()),
{
    let ghost all = position_views(v@);
    let mut sum: Option<Decimal> = Some(Decimal::new(0, 0));
    let mut i: usize = 0;
    while i < v.len()
        invariant
            i <= v@.len(),
            all == position_views(v@),
            dec(sum) == regular_sum(all, i as nat),
        decreases v@.len() - i,
    {
        assert(all[i as int] == v@[i as int]@);
        if !v[i].price_only && !v[i].provisional {
            if let Some(total) = v[i].total_price {
                sum = match sum {
                    Some(before) => before.checked_add(total),
                    None => None,
                };
            }
        }
        i = i + 1;
    }
    sum
}

proof fn lemma_restored(v: Seq<PositionView>, c: Seq<CandidateView>, picked: Seq<nat>, k: nat)
    requires
        within(c, v.len()),
        k <= picked.len(),
        forall|i: int| 0 <= i < picked.len() ==> #[trigger] picked[i] < c.len(),
    ensures
        restored(v, c, picked, k).len() == v.len(),
        forall|i: int|
            0 <= i < v.len() ==> (#[trigger] restored(v, c, picked, k)[i]).oz == v[i].oz,
    decreases k,
{
    if k > 0 {
        lemma_restored(v, c, picked, (k - 1) as nat);
        assert(picked[k - 1] < c.len());
        assert(c[picked[k - 1] as int].index < v.len());
    }
}

fn restore(
    positions: &mut Vec<Position>,
    c: &Vec<Candidate>,
    picked: &Vec<usize>,
    warnings: &mut Vec<String>,
)
    requires
        within(candidate_views(c@), old(positions)@.len()),
        forall|i: int| 0 <= i < picked@.len() ==> #[trigger] picked@[i] < c@.len(),
    ensures
        position_views(final(positions)@) == restored(
            position_views(old(positions)@),
            candidate_views(c@),
            pick_views(picked@),
            picked@.len(),
        ),
        texts(final(warnings)@) == texts(old(warnings)@) + restored_warnings(
            position_views(old(positions)@),
            candidate_views(c@),
            pick_views(picked@),
            picked@.len(),
        ),
{
    broadcast use {group_model_views, lemma_texts_push};
    let ghost v = position_views(positions@);
    let ghost all = candidate_views(c@);
    let ghost chosen = pick_views(picked@);
    let ghost start = texts(warnings@);
    let mut i: usize = 0;
    assert(start + restored_warnings(v, all, chosen, 0) =~= start);
    assert forall|j: int| 0 <= j < chosen.len() implies #[trigger] chosen[j] < all.len() by {
        assert(chosen[j] == picked@[j]);
    }
    while i < picked.len()
        invariant
            i <= picked@.len() == chosen.len(),
            all == candidate_views(c@),
            chosen == pick_views(picked@),
            within(all, v.len()),
            positions@.len() == v.len(),
            forall|j: int| 0 <= j < picked@.len() ==> #[trigger] picked@[j] < c@.len(),
            forall|j: int| 0 <= j < chosen.len() ==> #[trigger] chosen[j] < all.len(),
            position_views(positions@) == restored(v, all, chosen, i as nat),
            texts(warnings@) == start + restored_warnings(v, all, chosen, i as nat),
        decreases picked@.len() - i,
    {
        broadcast use {group_model_views, lemma_texts_push};
        let ghost here = position_views(positions@);
        proof {
            lemma_restored(v, all, chosen, i as nat);
        }
        let candidate = c[picked[i]];
        assert(all[chosen[i as int] as int] == candidate@);
        let at: usize = candidate.index;
        assert(at < v.len());
        assert(here[at as int] == positions@[at as int]@);
        let mut position = Position::default();
        std::mem::swap(&mut position, &mut positions[at]);
        position.provisional = false;
        position.price_only = false;
        position.total_price = Some(candidate.value);
        let text = "Eventualposition korrigiert: ".to_owned().concat(position.oz.as_str()).concat(
            " – Untertitelsumme enthält die Position; GP ",
        ).concat(decimal_text(candidate.value).as_str()).concat(" gesetzt");
        let ghost said = text@;
        let ghost before = texts(warnings@);
        warnings.push(text);
        let ghost changed = position@;
        positions.set(at, position);
        assert(position_views(positions@) =~= here.update(at as int, changed));
        assert(before.push(said) =~= start + restored_warnings(v, all, chosen, (i + 1) as nat));
        i = i + 1;
    }
}

fn hold_against(
    oz: &str,
    positions: &mut Vec<Position>,
    c: &Vec<Candidate>,
    reported: Decimal,
    base: Decimal,
    facts: &Vec<Fact>,
    warnings: &mut Vec<String>,
) -> (r: bool)
    requires
        within(candidate_views(c@), old(positions)@.len()),
    ensures
        (match held_against(
            oz@,
            position_views(old(positions)@),
            candidate_views(c@),
            reported@,
            base@,
            fact_views(facts@),
        ) {
            Some(checked) => r && position_views(final(positions)@) == checked.positions && texts(
                final(warnings)@,
            ) == texts(old(warnings)@) + checked.warnings,
            None => !r,
        }),
{
    broadcast use lemma_texts_push;
    let ghost start = texts(warnings@);
    let required = match reported.checked_sub(base) {
        Some(rest) => money(rest),
        None => {
            return false;
        },
    };
    let settled = match close(required, Decimal::new(0, 0)) {
        Some(settled) => settled,
        None => {
            return false;
        },
    };
    assert(candidate_views(c@).len() == c@.len());
    if settled {
        warn_seen(
            "Eventualposition bestätigt durch Untertitelsumme, aber GB-Spalte auffällig: ",
            "",
            c,
            positions,
            facts,
            warnings,
        );
        return true;
    }
    match matching_subset(c, required, positions, facts) {
        None => false,
        Some(None) => {
            let text = "Untertitelsumme prüfen: ".to_owned().concat(oz).concat(
                " – ausgewiesen ",
            ).concat(decimal_text(reported).as_str()).concat(", aus regulären Positionen ").concat(
                decimal_text(base).as_str(),
            ).concat(", Differenz ").concat(decimal_text(required).as_str());
            let ghost said = text@;
            warnings.push(text);
            assert(start.push(said) =~= start + seq![said]);
            true
        },
        Some(Some(picked)) => {
            assert(pick_views(picked@).len() == picked@.len());
            restore(positions, c, &picked, warnings);
            true
        },
    }
}

fn validate_subtitle(
    oz: &str,
    positions: &mut Vec<Position>,
    facts: &Vec<Fact>,
    totals: &Vec<Stated>,
    warnings: &mut Vec<String>,
) -> (r: bool)
    ensures
        (match checked_subtitle(
            oz@,
            position_views(old(positions)@),
            fact_views(facts@),
            stated_views(totals@),
        ) {
            Some(checked) => r && position_views(final(positions)@) == checked.positions && texts(
                final(warnings)@,
            ) == texts(old(warnings)@) + checked.warnings,
            None => !r,
        }),
{
    let ghost start = texts(warnings@);
    assert(start + Seq::<Seq<char>>::empty() =~= start);
    let candidates = match find_candidates(positions) {
        Some(candidates) => candidates,
        None => {
            return false;
        },
    };
    assert(candidate_views(candidates@).len() == candidates@.len());
    if candidates.len() == 0 {
        return true;
    }
    match find_stated(totals, oz) {
        None => {
            warn_seen(
                "Eventualposition prüfen: ",
                " – in der GB-Spalte wurde ein Gesamtpreis erkannt, aber keine Untertitelsumme gefunden",
                &candidates,
                positions,
                facts,
                warnings,
            );
            true
        },
        Some(reported) => match sum_regular(positions) {
            None => false,
            Some(base) => hold_against(
                oz,
                positions,
                &candidates,
                reported,
                money(base),
                facts,
                warnings,
            ),
        },
    }
}

proof fn lemma_tree_failed(
    nodes: Seq<NodeView>,
    facts: Seq<FactView>,
    totals: Seq<StatedView>,
    n: int,
    m: int,
)
    requires
        0 <= n <= m <= nodes.len(),
        checked_tree(nodes.take(n), facts, totals) is None,
    ensures
        checked_tree(nodes.take(m), facts, totals) is None,
    decreases m,
{
    if n < m {
        lemma_tree_failed(nodes, facts, totals, n, m - 1);
        assert(nodes.take(m).drop_last() =~= nodes.take(m - 1));
    }
}

fn clone_positions(v: &Vec<Position>) -> (r: Vec<Position>)
    ensures
        position_views(r@) == position_views(v@),
{
    let mut r: Vec<Position> = Vec::new();
    let mut i: usize = 0;
    while i < v.len()
        invariant
            i <= v@.len(),
            r@.len() == i,
            forall|j: int| 0 <= j < i ==> (#[trigger] r@[j])@ == v@[j]@,
        decreases v@.len() - i,
    {
        r.push(v[i].clone());
        i = i + 1;
    }
    assert(position_views(r@) =~= position_views(v@));
    r
}

fn validate_nodes(
    nodes: &Vec<Node>,
    facts: &Vec<Fact>,
    totals: &Vec<Stated>,
    warnings: &mut Vec<String>,
) -> (r: Option<Vec<Node>>)
    ensures
        (match checked_tree(node_views(nodes@), fact_views(facts@), stated_views(totals@)) {
            Some((tree, said)) => r is Some && node_views(r->0@) == tree && texts(final(warnings)@)
                == texts(old(warnings)@) + said,
            None => r is None,
        }),
    decreases *nodes,
{
    broadcast use group_model_views;
    let ghost all = node_views(nodes@);
    let ghost f = fact_views(facts@);
    let ghost t = stated_views(totals@);
    let ghost start = texts(warnings@);
    let mut done: Vec<Node> = Vec::new();
    let mut i: usize = 0;
    assert(start + Seq::<Seq<char>>::empty() =~= start);
    assert(node_views(done@) =~= seq![]);
    assert(all.take(0) =~= seq![]);
    while i < nodes.len()
        invariant
            i <= nodes@.len(),
            all == node_views(nodes@),
            f == fact_views(facts@),
            t == stated_views(totals@),
            checked_tree(all.take(i as int), f, t) is Some,
            node_views(done@) == (checked_tree(all.take(i as int), f, t)->0).0,
            texts(warnings@) == start + (checked_tree(all.take(i as int), f, t)->0).1,
        decreases nodes@.len() - i,
    {
        broadcast use group_model_views;
        assert(all[i as int] == nodes@[i as int]@);
        assert(all.take(i + 1).drop_last() =~= all.take(i as int));
        assert(all.take(i + 1).last() == nodes@[i as int]@);
        assert(all.take(all.len() as int) =~= all);
        let ghost so_far = (checked_tree(all.take(i as int), f, t)->0).1;
        let ghost w0 = texts(warnings@);
        let mut positions = clone_positions(&nodes[i].positions);
        if nodes[i].level == 3 {
            if !validate_subtitle(nodes[i].oz.as_str(), &mut positions, facts, totals, warnings) {
                proof {
                    lemma_tree_failed(all, f, t, i + 1, all.len() as int);
                }
                return None;
            }
        } else {
            assert(w0 + Seq::<Seq<char>>::empty() =~= w0);
        }
        let ghost w1 = texts(warnings@);
        assert(decreases_to!(*nodes => nodes@[i as int].children));
        let children = match validate_nodes(&nodes[i].children, facts, totals, warnings) {
            Some(children) => children,
            None => {
                proof {
                    lemma_tree_failed(all, f, t, i + 1, all.len() as int);
                }
                return None;
            },
        };
        let node = Node {
            oz: nodes[i].oz.clone(),
            title: nodes[i].title.clone(),
            level: nodes[i].level,
            page: nodes[i].page,
            children,
            positions,
        };
        assert(node@ == (NodeView {
            positions: position_views(positions@),
            children: node_views(children@),
            ..all[i as int]
        }));
        done.push(node);
        assert(texts(warnings@) =~= start + (checked_tree(all.take(i + 1), f, t)->0).1);
        i = i + 1;
    }
    assert(all.take(nodes@.len() as int) =~= all);
    Some(done)
}

/// The bill with its optional positions held against the sums of a layout; nothing where
/// the arithmetic overflows.
pub open spec fn with_checked_totals(boq: BoqView, text: Seq<char>) -> Option<BoqView> {
    let read = facts_of(text);
    match checked_tree(boq.roots, read.facts, read.totals) {
        Some((roots, warnings)) => Some(BoqView { roots, warnings: boq.warnings + warnings, ..boq }),
        None => None,
    }
}

/// Holds the optional positions of a bill against the sums that the text of its document
/// states. A bill on which the arithmetic overflows stays as it is.
pub fn validate_provisional_totals(layout_text: &str, boq: &mut BillOfQuantities) -> (r: Result<
    (),
    Error,
>)
    ensures
        (match with_checked_totals(old(boq)@, layout_text@) {
            Some(checked) => r is Ok && final(boq)@ == checked,
            None => r is Err && r->Err_0@ == overflow_message() && final(boq)@ == old(boq)@,
        }),
{
    broadcast use lemma_texts_push;
    let read = extract_layout_facts(layout_text);
    let mut said: Vec<String> = Vec::new();
    assert(texts(said@) =~= seq![]);
    match validate_nodes(&boq.roots, &read.facts, &read.totals, &mut said) {
        Some(roots) => {
            let ghost before = texts(boq.warnings@);
            let ghost more = texts(said@);
            boq.roots = roots;
            boq.warnings.append(&mut said);
            assert(texts(boq.warnings@) =~= before + more);
            assert(Seq::<Seq<char>>::empty() + more =~= more);
            Ok(())
        },
        None => Err(failure("Preisberechnung überschreitet den Zahlenbereich")),
    }
}

} // verus!
