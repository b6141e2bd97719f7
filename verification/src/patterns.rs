//! The patterns by which lines of text are recognised, and matching against them.

use crate::gaeb2000::byte_slice;
use crate::text::position_of;
use vstd::prelude::*;
use vstd::utf8::encode_utf8;

verus! {

/// A regular expression of the `regex` crate.
#[verifier::external_type_specification]
#[verifier::external_body]
pub struct ExRegex(regex::Regex);

/// `OZ Title` at the start of a line: number, trailing dot, title.
pub const HEADING: &'static str = r"^(\d+(?:\.\d+){0,4})(\.)?\s+(\S.*)$";

/// The ordinal number of a position: number, trailing dot, rest of the line.
pub const POSITION_START: &'static str = r"^(\d+(?:\.\d+){2,5})(\.)?(?:\s+(.*))?$";

/// A line that starts with an ordinal number of six parts.
pub const SIX_PART_PROFILE: &'static str = r"(?m)^\s*\d+(?:\.\d+){5}\s+\S";

/// A whole price line: quantity, unit, unit price, total.
pub const PRICED_DATA: &'static str = r"^([\d.]+,\d{3})\s+(\S+)\s+([\d.]+,\d{2})\s*€(?:\s+([\d.]+,\d{2})\s*€|\s+Nur\s+Einh\.-Pr\.)?\s*$";

/// A price at the end of a line: quantity, unit, unit price, total, price-only remark.
pub const TRAILING_QUANTITY: &'static str = r"(\d[\d.]*(?:,\d{1,3})?)\s+(\S+)\s+(?:(-?[\d.]+,\d{2})\.?|\.{3,})\s*(?:€|EUR)?(?:\s+(?:Bedarf\s+)?(?:(-?[\d.]+,\d{2})|\.{3,})\s*(?:€|EUR)?|\s+((?:Nur\s+Einh\.-Pr\.|nur\s+EP)))?\s*$";

/// The sum line of a heading.
pub const SUM: &'static str = r"^Summe\s+\d+(?:\.\d+){1,5}\.?(?:\s|$)";

/// The line at the foot of a printed page.
pub const FOOTER: &'static str = r"^Druckausgabe vom:.*\d+\s*/\s*\d+\s*$";

/// A sum behind a title.
pub const TRAILING_TOTAL: &'static str = r"(?i)\s+(?:Summe\s+)?[\d.]+,\d{2}(?:\s*(?:€|EUR))?\s*$";

/// The short number of a supplementary offer.
pub const OFFER_OZ: &'static str = r"(?m)^\s*NA\s+(\d+)\.(\d+)\s+";

/// The heading above positions with a placeholder: number, title.
pub const PLACEHOLDER_HEADING: &'static str = r"^(\d{2}\.\d{2})\s+(\S.*)$";

/// A position with a placeholder in its number: first part, second part, item, rest.
pub const PLACEHOLDER_POSITION: &'static str = r"^(\d{2})\.(\d{2})\.__\.(\d{3})(?:\s+(.*))?$";

/// Any position or heading number below a title.
pub const ANY_POSITION: &'static str = r"^\d{2}\.\d{2}(?:\.(?:\d{2}|__)){1,2}(?:\s|$)";

/// The sum line of a title.
pub const TITLE_SUM: &'static str = r"^Summe\s+\d{2}\.\d{2}\b";

/// A page of a page layout: attributes, body.
pub const LAYOUT_PAGE: &'static str = r"(?s)<page\b([^>]*)>(.*?)</page>";

/// A text of a page layout: attributes, body.
pub const LAYOUT_TEXT: &'static str = r"(?s)<text\b([^>]*)>(.*?)</text>";

/// An image of a page layout: attributes.
pub const LAYOUT_IMAGE: &'static str = r"<image\b([^>]*)/?>";

/// A font of a page layout: attributes.
pub const LAYOUT_FONT: &'static str = r"<fontspec\b([^>]*)/?>";

/// A markup tag.
pub const TAG: &'static str = r"<[^>]+>";

/// A position number anywhere in a text.
pub const OZ_ANYWHERE: &'static str = r"\b\d{2}\.\d{2}\.\d{2}\.\d{3}\b";

/// A position number at the start of a line.
pub const OZ_AT_START: &'static str = r"^(\d{2}\.\d{2}\.\d{2}\.\d{3})(?:\s|$)";

/// A position number at the start of a line: number, rest.
pub const OZ_AND_REST: &'static str = r"^(\d{2}\.\d{2}\.\d{2}\.\d{3})(?:\s+(.*))?$";

/// The number of a heading at the start of a line.
pub const HEADING_NUMBER: &'static str = r"^\d{2}(?:\.\d{2}){0,2}\s+\S";

/// A heading with two digits on each level: number, title.
pub const TWO_DIGIT_HEADING: &'static str = r"^(\d{2}(?:\.\d{2}){0,2})\s+(\S.*)$";

/// A quantity and a unit at the start of a line.
pub const QUANTITY_AND_UNIT: &'static str = r"^[\d.]+,\d{2,3}\s+\S+";

/// Quantity, unit and unit price in a line.
pub const PRICE_ROW: &'static str = r"[\d.]+,\d{3}\s+\S+\s+[\d.]+,\d{2}\s*€";

/// An amount of money.
pub const MONEY: &'static str = r"[\d.]+,\d{2}\s*(?:€|EUR)";

/// The sum line of a title or subtitle: number.
pub const SUBTITLE_SUM: &'static str = r"^Summe\s+(\d{2}(?:\.\d{2}){1,2})\b";

/// The start tag of an item.
pub const ITEM_START: &'static str = r"<Item\b[^>]*>";

/// Words that reviews do not show.
pub const PROFANITY: &'static str = r"(?i)\b(arschloch|schei(?:ß|ss)e|wichser|hurensohn|fotze|idiot)\b";

/// Whether a text is one of the patterns of this library.
pub open spec fn known(p: Seq<char>) -> bool {
    ||| p == HEADING@
    ||| p == POSITION_START@
    ||| p == SIX_PART_PROFILE@
    ||| p == PRICED_DATA@
    ||| p == TRAILING_QUANTITY@
    ||| p == SUM@
    ||| p == FOOTER@
    ||| p == TRAILING_TOTAL@
    ||| p == OFFER_OZ@
    ||| p == PLACEHOLDER_HEADING@
    ||| p == PLACEHOLDER_POSITION@
    ||| p == ANY_POSITION@
    ||| p == TITLE_SUM@
    ||| p == LAYOUT_PAGE@
    ||| p == LAYOUT_TEXT@
    ||| p == LAYOUT_IMAGE@
    ||| p == LAYOUT_FONT@
    ||| p == TAG@
    ||| p == OZ_ANYWHERE@
    ||| p == OZ_AT_START@
    ||| p == OZ_AND_REST@
    ||| p == HEADING_NUMBER@
    ||| p == TWO_DIGIT_HEADING@
    ||| p == QUANTITY_AND_UNIT@
    ||| p == PRICE_ROW@
    ||| p == MONEY@
    ||| p == SUBTITLE_SUM@
    ||| p == ITEM_START@
    ||| p == PROFANITY@
}

/// A piece of a text that a pattern matched, and where it stands, in bytes.
#[derive(Debug)]
pub struct Found {
    pub start: usize,
    pub end: usize,
    pub text: String,
}

/// What a match is.
#[verifier::ext_equal]
pub struct FoundView {
    pub start: nat,
    pub end: nat,
    pub text: Seq<char>,
}

impl View for Found {
    type V = FoundView;

    open spec fn view(&self) -> FoundView {
        FoundView { start: self.start as nat, end: self.end as nat, text: self.text@ }
    }
}

/// The groups of a match: the whole match first, then each group that took part.
pub open spec fn groups(v: Seq<Option<Found>>) -> Seq<Option<FoundView>> {
    Seq::new(
        v.len(),
        |i: int|
            match v[i] {
                Some(f) => Some(f@),
                None => None,
            },
    )
}

pub open spec fn opt_groups(v: Option<Vec<Option<Found>>>) -> Option<Seq<Option<FoundView>>> {
    match v {
        Some(g) => Some(groups(g@)),
        None => None,
    }
}

pub open spec fn all_groups(v: Seq<Vec<Option<Found>>>) -> Seq<Seq<Option<FoundView>>> {
    Seq::new(v.len(), |i: int| groups(v[i]@))
}

/// The groups of the first match of a pattern in a text.
pub uninterp spec fn first_match(pattern: Seq<char>, s: Seq<char>) -> Option<Seq<Option<FoundView>>>;

/// The groups of all matches of a pattern in a text, from left to right.
pub uninterp spec fn all_matches(pattern: Seq<char>, s: Seq<char>) -> Seq<Seq<Option<FoundView>>>;

/// Whether a character of a text starts at this byte, or the text ends there.
pub open spec fn at_char(s: Seq<char>, n: nat) -> bool {
    exists|k: int| 0 <= k <= s.len() && n == #[trigger] encode_utf8(s.take(k)).len()
}

/// Whether matches stand one behind the other in a text, none in the middle of a
/// character.
pub open spec fn in_order(s: Seq<char>, found: Seq<Seq<Option<FoundView>>>) -> bool {
    &&& forall|i: int|
        0 <= i < found.len() ==> {
            &&& (#[trigger] found[i]).len() > 0
            &&& found[i][0] is Some
            &&& found[i][0]->0.start <= found[i][0]->0.end
            &&& at_char(s, found[i][0]->0.start)
            &&& at_char(s, found[i][0]->0.end)
            &&& found[i][0]->0.text == byte_slice(
                s,
                found[i][0]->0.start as int,
                found[i][0]->0.end as int,
            )
        }
    &&& forall|i: int, j: int|
        0 <= i < j < found.len() ==> (#[trigger] found[i])[0]->0.end <= (
        #[trigger] found[j])[0]->0.start
}

/// Whether a pattern matches somewhere in a text.
pub uninterp spec fn is_matched(pattern: Seq<char>, s: Seq<char>) -> bool;

/// Whether a character belongs to words, as patterns have it.
pub open spec fn in_word(c: char) -> bool {
    is_matched("\\w"@, seq![c])
}

/// Where the start tag of an item ends that starts at place `i`: behind the next `>`.
pub open spec fn tag_from(s: Seq<char>, i: nat) -> Option<nat> {
    let rest = s.skip(i as int + 5);
    if i + 5 < s.len() && s.subrange(i as int, i as int + 5) == "<Item"@ && !in_word(s[i as int + 5])
        && position_of(rest, '>') < rest.len() {
        Some(i + 5 + position_of(rest, '>') + 1)
    } else {
        None
    }
}

/// Where the start tags of items start and end, from place `from` on.
pub open spec fn item_tags(s: Seq<char>, from: nat) -> Seq<(nat, nat)>
    decreases s.len() - from,
{
    if from >= s.len() {
        seq![]
    } else {
        match tag_from(s, from) {
            Some(end) => seq![(from, end)] + item_tags(s, end),
            None => item_tags(s, from + 1),
        }
    }
}

/// A part of a text as a match without groups.
pub open spec fn match_of(s: Seq<char>, from: nat, to: nat) -> Seq<Option<FoundView>> {
    seq![
        Some(
            FoundView {
                start: encode_utf8(s.take(from as int)).len(),
                end: encode_utf8(s.take(to as int)).len(),
                text: s.subrange(from as int, to as int),
            },
        ),
    ]
}

/// The start tags of items as matches.
pub open spec fn tag_matches(s: Seq<char>) -> Seq<Seq<Option<FoundView>>> {
    let tags = item_tags(s, 0);
    Seq::new(tags.len(), |i: int| match_of(s, tags[i].0, tags[i].1))
}

/// A text with every match of a pattern replaced by a template.
pub uninterp spec fn with_all_replaced(pattern: Seq<char>, s: Seq<char>, template: Seq<char>) -> Seq<char>;

/// A text without the first match of a pattern.
pub uninterp spec fn without_first(pattern: Seq<char>, s: Seq<char>) -> Seq<char>;

/// The text of a compiled regular expression.
pub uninterp spec fn source_of(regex: regex::Regex) -> Seq<char>;

/// A compiled pattern.
pub struct Pattern {
    regex: regex::Regex,
}

impl View for Pattern {
    type V = Seq<char>;

    closed spec fn view(&self) -> Seq<char> {
        source_of(self.regex)
    }
}

/// `Regex::new` compiles a pattern; every pattern of this library is well-formed.
#[verifier::external_body]
fn compile(source: &str) -> (r: regex::Regex)
    requires
        known(source@),
    ensures
        source_of(r) == source@,
{
    regex::Regex::new(source).expect("well-formed pattern")
}

/// `Regex::captures` finds the leftmost match and its groups; which ones depends on the
/// pattern and the text alone.
#[verifier::external_body]
fn captures(regex: &regex::Regex, s: &str) -> (r: Option<Vec<Option<Found>>>)
    ensures
        opt_groups(r) == first_match(source_of(*regex), s@),
{
    regex.captures(s).map(|c| {
        c.iter().map(|m| m.map(|m| Found { start: m.start(), end: m.end(), text: m.as_str().to_owned() })).collect()
    })
}

/// `Regex::captures_iter` finds all matches that do not overlap, from the left, with
/// their groups; which ones depends on the pattern and the text alone. The first group
/// is the whole match, and no offset stands in the middle of a character. For the
/// pattern of the start tags of items the matches are told: `\b` behind a letter asks for
/// a character that `\w` does not match, and `[^>]*` takes all that is no `>`.
#[verifier::external_body]
fn captures_iter(regex: &regex::Regex, s: &str) -> (r: Vec<Vec<Option<Found>>>)
    ensures
        all_groups(r@) == all_matches(source_of(*regex), s@),
        in_order(s@, all_groups(r@)),
        source_of(*regex) == ITEM_START@ ==> all_groups(r@) == tag_matches(s@),
{
    regex.captures_iter(s).map(|c| {
        c.iter().map(|m| m.map(|m| Found { start: m.start(), end: m.end(), text: m.as_str().to_owned() })).collect()
    }).collect()
}

/// `Regex::is_match` tells whether there is a match, which depends on the pattern and the
/// text alone.
#[verifier::external_body]
fn is_match(regex: &regex::Regex, s: &str) -> (r: bool)
    ensures
        r == is_matched(source_of(*regex), s@),
{
    regex.is_match(s)
}

/// `Regex::replace_all` puts a template in the place of every match.
#[verifier::external_body]
fn replace_all(regex: &regex::Regex, s: &str, template: &str) -> (r: String)
    ensures
        r@ == with_all_replaced(source_of(*regex), s@, template@),
{
    regex.replace_all(s, template).into_owned()
}

/// `Regex::replace` with nothing in the place of the leftmost match: the text stays as it
/// is where there is none or it is empty, and gets shorter otherwise.
#[verifier::external_body]
fn replace(regex: &regex::Regex, s: &str) -> (r: String)
    ensures
        r@ == without_first(source_of(*regex), s@),
        r@ == s@ || r@.len() < s@.len(),
{
    regex.replace(s, "").into_owned()
}

impl Pattern {
    pub fn new(source: &str) -> (r: Pattern)
        requires
            known(source@),
        ensures
            r@ == source@,
    {
        Pattern { regex: compile(source) }
    }

    /// The groups of the first match.
    pub fn first(&self, s: &str) -> (r: Option<Vec<Option<Found>>>)
        ensures
            opt_groups(r) == first_match(self@, s@),
    {
        captures(&self.regex, s)
    }

    /// The groups of all matches.
    pub fn all(&self, s: &str) -> (r: Vec<Vec<Option<Found>>>)
        ensures
            all_groups(r@) == all_matches(self@, s@),
            in_order(s@, all_groups(r@)),
            self@ == ITEM_START@ ==> all_groups(r@) == tag_matches(s@),
    {
        captures_iter(&self.regex, s)
    }

    pub fn matches(&self, s: &str) -> (r: bool)
        ensures
            r == is_matched(self@, s@),
    {
        is_match(&self.regex, s)
    }

    pub fn replaced(&self, s: &str, template: &str) -> (r: String)
        ensures
            r@ == with_all_replaced(self@, s@, template@),
    {
        replace_all(&self.regex, s, template)
    }

    pub fn removed(&self, s: &str) -> (r: String)
        ensures
            r@ == without_first(self@, s@),
            r@ == s@ || r@.len() < s@.len(),
    {
        replace(&self.regex, s)
    }
}

/// The text of a group, if it took part in the match.
pub open spec fn group(g: Seq<Option<FoundView>>, i: int) -> Option<Seq<char>> {
    if 0 <= i < g.len() {
        match g[i] {
            Some(f) => Some(f.text),
            None => None,
        }
    } else {
        None
    }
}

/// The text of a group, or nothing.
pub open spec fn group_text(g: Seq<Option<FoundView>>, i: int) -> Seq<char> {
    match group(g, i) {
        Some(s) => s,
        None => seq![],
    }
}

pub fn captured(g: &Vec<Option<Found>>, i: usize) -> (r: Option<String>)
    ensures
        crate::model::opt_text(r) == group(groups(g@), i as int),
{
    if i < g.len() {
        match &g[i] {
            Some(f) => Some(f.text.clone()),
            None => None,
        }
    } else {
        None
    }
}

pub fn captured_text(g: &Vec<Option<Found>>, i: usize) -> (r: String)
    ensures
        r@ == group_text(groups(g@), i as int),
{
    match captured(g, i) {
        Some(s) => s,
        None => String::new(),
    }
}

} // verus!
