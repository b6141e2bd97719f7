//! Positions whose ordinal number has a placeholder in it, such as `02.06.__.010`.
//!
//! The placeholder is written `00`, so that every part of the number is numeric.

use crate::document::Error;
use crate::model::{
    empty_position, group_model_views, node_views, position_views, BillOfQuantities, BoqView, Node,
    NodeView, Position, PositionView,
};
use crate::order::{arrange, arranged, key_of, keys_of};
use crate::parser::{
    apply_price_captures, ensure_path, extract_leading_multiline_price, filed, heading_views,
    priced, with_leading_price, Gathered, Heading, HeadingView,
};
use crate::patterns::{
    captured_text, first_match, group_text, groups, is_matched, opt_groups, Found, FoundView,
    Pattern, ANY_POSITION, PLACEHOLDER_HEADING, PLACEHOLDER_POSITION, PRICED_DATA, TITLE_SUM,
};
use crate::text::{
    ends_with, join, joined, lemma_texts_push, lines, normalize_line, parse_unsigned, parts, same,
    single_spaced, split, split_lines, starts_with, texts, trim, trimmed, unsigned_in,
};
use crate::outline::lemma_split_len;
use crate::tree::{positions, positions_of, ref_views};
use vstd::prelude::*;

verus! {

/// The number in one part of an ordinal number; what is no number comes last.
pub open spec fn part_value(part: Seq<char>) -> int {
    match unsigned_in(part, u32::MAX as nat) {
        Some(n) => n as int,
        None => u32::MAX as int,
    }
}

/// The numbers by which ordinal numbers are ordered.
pub open spec fn sort_key(oz: Seq<char>) -> Seq<int> {
    let p = split(oz, '.');
    Seq::new(p.len(), |i: int| part_value(p[i]))
}

pub open spec fn numbers(v: Seq<u32>) -> Seq<int> {
    Seq::new(v.len(), |i: int| v[i] as int)
}

pub fn oz_sort_key(oz: &str) -> (r: Vec<u32>)
    ensures
        numbers(r@) == sort_key(oz@),
{
    let p = parts(oz, '.');
    let ghost all = split(oz@, '.');
    assert(p@.len() == texts(p@).len());
    let mut r: Vec<u32> = Vec::new();
    let mut i: usize = 0;
    while i < p.len()
        invariant
            i <= p@.len() == all.len(),
            texts(p@) == all,
            r@.len() == i,
            forall|j: int| 0 <= j < i ==> #[trigger] r@[j] as int == part_value(all[j]),
        decreases p@.len() - i,
    {
        assert(all[i as int] == p@[i as int]@);
        let n: u32 = match parse_unsigned(p[i].as_str(), u32::MAX as u64) {
            Some(n) => n as u32,
            None => u32::MAX,
        };
        r.push(n);
        i = i + 1;
    }
    assert(numbers(r@) =~= sort_key(oz@));
    r
}

fn wide_key(oz: &str) -> (r: Vec<i128>)
    ensures
        key_of(r@) == sort_key(oz@),
{
    let key = oz_sort_key(oz);
    let mut r: Vec<i128> = Vec::new();
    let mut i: usize = 0;
    while i < key.len()
        invariant
            i <= key@.len(),
            r@.len() == i,
            forall|j: int| 0 <= j < i ==> #[trigger] r@[j] == key@[j],
        decreases key@.len() - i,
    {
        r.push(key[i] as i128);
        i = i + 1;
    }
    assert(key_of(r@) =~= numbers(key@));
    r
}

pub open spec fn position_keys(v: Seq<PositionView>) -> Seq<Seq<int>> {
    Seq::new(v.len(), |i: int| sort_key(v[i].oz))
}

pub open spec fn node_keys(v: Seq<NodeView>) -> Seq<Seq<int>> {
    Seq::new(v.len(), |i: int| sort_key(v[i].oz))
}

/// The headings, each with what stands under it in the order of the ordinal numbers.
pub open spec fn tidied(nodes: Seq<NodeView>) -> Seq<NodeView>
    decreases nodes, 0nat,
{
    if nodes.len() == 0 {
        seq![]
    } else {
        let node = nodes.last();
        tidied(nodes.drop_last()).push(
            NodeView {
                children: sorted_tree(node.children),
                positions: arranged(node.positions, position_keys(node.positions)),
                ..node
            },
        )
    }
}

/// The tree in the order of the ordinal numbers.
pub open spec fn sorted_tree(nodes: Seq<NodeView>) -> Seq<NodeView>
    decreases nodes, 1nat,
{
    arranged(tidied(nodes), node_keys(nodes))
}

fn sort_positions(v: Vec<Position>) -> (r: Vec<Position>)
    ensures
        position_views(r@) == arranged(position_views(v@), position_keys(position_views(v@))),
{
    let ghost views = position_views(v@);
    let mut keys: Vec<Vec<i128>> = Vec::new();
    let mut i: usize = 0;
    while i < v.len()
        invariant
            i <= v@.len(),
            keys@.len() == i,
            views == position_views(v@),
            forall|j: int| 0 <= j < i ==> key_of((#[trigger] keys@[j])@) == sort_key(views[j].oz),
        decreases v@.len() - i,
    {
        keys.push(wide_key(v[i].oz.as_str()));
        i = i + 1;
    }
    assert(keys_of(keys@) =~= position_keys(views));
    proof {
        crate::order::law_ranking(keys_of(keys@), v@.len());
    }
    let r = arrange(v, &keys);
    assert(position_views(r@) =~= arranged(views, position_keys(views)));
    r
}

pub fn sort_hierarchy(nodes: &mut Vec<Node>)
    ensures
        node_views(final(nodes)@) == sorted_tree(node_views(old(nodes)@)),
    decreases *old(nodes),
{
    broadcast use group_model_views;
    let ghost all = node_views(nodes@);
    let ghost start = *nodes;
    let len: usize = nodes.len();
    let mut keys: Vec<Vec<i128>> = Vec::new();
    let mut i: usize = 0;
    while i < len
        invariant
            i <= len == nodes@.len() == all.len(),
            all == node_views(start@),
            start == *old(nodes),
            start@.len() == len,
            keys@.len() == i,
            forall|j: int| 0 <= j < i ==> key_of((#[trigger] keys@[j])@) == sort_key(all[j].oz),
            node_views(nodes@).take(i as int) == tidied(all.take(i as int)),
            forall|j: int| i <= j < len ==> nodes@[j] == start@[j],
        decreases len - i,
    {
        broadcast use group_model_views;
        let ghost here = node_views(nodes@);
        let mut node = Node::default();
        std::mem::swap(&mut node, &mut nodes[i]);
        assert(node == start@[i as int]);
        let ghost before = node@;
        assert(before == all[i as int]);
        keys.push(wide_key(node.oz.as_str()));
        assert(decreases_to!(start => start@[i as int].children));
        sort_hierarchy(&mut node.children);
        let mut under: Vec<Position> = Vec::new();
        std::mem::swap(&mut under, &mut node.positions);
        node.positions = sort_positions(under);
        let ghost after = node@;
        assert(all.take(i + 1).drop_last() =~= all.take(i as int));
        assert(all.take(i + 1).last() == before);
        nodes.set(i, node);
        assert(node_views(nodes@) =~= here.update(i as int, after));
        assert(node_views(nodes@).take(i + 1) =~= here.take(i as int).push(after));
        i = i + 1;
    }
    assert(all.take(len as int) =~= all);
    assert(node_views(nodes@).take(len as int) =~= node_views(nodes@));
    let ghost inner = node_views(nodes@);
    assert(keys_of(keys@) =~= node_keys(all));
    let mut taken: Vec<Node> = Vec::new();
    std::mem::swap(&mut taken, nodes);
    proof {
        crate::order::law_ranking(keys_of(keys@), len as nat);
    }
    let sorted = arrange(taken, &keys);
    assert(node_views(sorted@) =~= arranged(inner, node_keys(all)));
    *nodes = sorted;
}

/// Whether a line is part of the head or foot of a page.
pub open spec fn noise(line: Seq<char>) -> bool {
    ||| "OZ Menge / Einheit"@.is_prefix_of(line)
    ||| "Druckausgabe vom:"@.is_prefix_of(line)
    ||| "Angebot"@.is_prefix_of(line)
}

pub fn is_noise(line: &str) -> (r: bool)
    ensures
        r == noise(line@),
{
    starts_with(line, "OZ Menge / Einheit") || starts_with(line, "Druckausgabe vom:")
        || starts_with(line, "Angebot")
}

/// The lines that have more than white space.
pub open spec fn written_lines(v: Seq<Seq<char>>) -> Seq<Seq<char>>
    decreases v.len(),
{
    if v.len() == 0 {
        seq![]
    } else if trim(v.last()).len() == 0 {
        written_lines(v.drop_last())
    } else {
        written_lines(v.drop_last()).push(v.last())
    }
}

fn without_blank(v: &Vec<String>) -> (r: Vec<String>)
    ensures
        texts(r@) == written_lines(texts(v@)),
{
    broadcast use lemma_texts_push;
    let ghost all = texts(v@);
    let mut r: Vec<String> = Vec::new();
    let mut i: usize = 0;
    while i < v.len()
        invariant
            i <= v@.len(),
            all == texts(v@),
            texts(r@) == written_lines(all.take(i as int)),
        decreases v@.len() - i,
    {
        broadcast use lemma_texts_push;
        assert(all.take(i + 1).drop_last() =~= all.take(i as int));
        assert(all.take(i + 1).last() == v@[i as int]@);
        if !trimmed(v[i].as_str()).as_str().is_empty() {
            r.push(v[i].clone());
        }
        i = i + 1;
    }
    assert(all.take(v@.len() as int) =~= all);
    r
}

/// A position that ends on this page, with what its lines say.
pub open spec fn completed(v: Gathered, page_to: usize) -> PositionView {
    let from = match v.position.page_from {
        Some(p) => p,
        None => page_to,
    };
    let ended = PositionView {
        page_to: Some(
            if page_to > from {
                page_to
            } else {
                from
            },
        ),
        ..v.position
    };
    let read = with_leading_price(Gathered { position: ended, lines: v.lines });
    let written = written_lines(read.lines);
    if written.len() == 0 {
        read.position
    } else {
        PositionView {
            short_text: written[0],
            long_text: join(written.skip(1), "\n"@),
            ..read.position
        }
    }
}

/// Whether a position says anything.
pub open spec fn says_something(p: PositionView) -> bool {
    ||| p.quantity is Some
    ||| p.unit_price is Some
    ||| trim(p.short_text).len() > 0
    ||| trim(p.long_text).len() > 0
}

/// What has been read.
#[verifier::ext_equal]
pub struct RecoveryView {
    pub headings: Seq<HeadingView>,
    pub recovered: Seq<PositionView>,
    pub current: Option<PositionView>,
    pub lines: Seq<Seq<char>>,
}

impl RecoveryView {
    /// The position that is being read, if any, is complete.
    pub open spec fn finished(self, page: usize) -> RecoveryView {
        match self.current {
            None => self,
            Some(position) => self.kept(
                completed(Gathered { position, lines: self.lines }, page),
            ),
        }
    }

    /// A complete position is kept if it says something.
    pub open spec fn kept(self, done: PositionView) -> RecoveryView {
        RecoveryView {
            recovered: if says_something(done) {
                self.recovered.push(done)
            } else {
                self.recovered
            },
            current: None,
            lines: seq![],
            ..self
        }
    }

    /// A position starts with this line.
    pub open spec fn begun(self, g: Seq<Option<FoundView>>, page: usize) -> RecoveryView {
        self.finished(page).opened(g, first_match(PRICED_DATA@, group_text(g, 4)), page)
    }

    /// A position starts with the groups of a line, and with those of the price line that
    /// the rest of the line is, if it is one.
    pub open spec fn opened(
        self,
        g: Seq<Option<FoundView>>,
        prices: Option<Seq<Option<FoundView>>>,
        page: usize,
    ) -> RecoveryView {
        let rest = group_text(g, 4);
        let position = PositionView {
            oz: group_text(g, 1) + "."@ + group_text(g, 2) + ".00."@ + group_text(g, 3),
            page_from: Some(page),
            ..empty_position()
        };
        match prices {
            Some(p) => RecoveryView { current: Some(priced(position, p, rest)), ..self },
            None => RecoveryView {
                current: Some(position),
                lines: if rest.len() == 0 {
                    self.lines
                } else {
                    self.lines.push(rest)
                },
                ..self
            },
        }
    }

    /// The title in a line is noted for a heading that ends in `.06`, and for any other
    /// while no position is being read.
    pub open spec fn headed(self, line: Seq<char>, page: usize) -> RecoveryView {
        self.noted(first_match(PLACEHOLDER_HEADING@, line), page)
    }

    /// The title in a line, given what was found of a heading in it.
    pub open spec fn noted(
        self,
        found: Option<Seq<Option<FoundView>>>,
        page: usize,
    ) -> RecoveryView {
        match found {
            Some(g) => if ".06"@.is_suffix_of(group_text(g, 1)) || self.current is None {
                RecoveryView {
                    headings: self.headings.push(
                        HeadingView { oz: group_text(g, 1), title: trim(group_text(g, 2)), page },
                    ),
                    ..self
                }
            } else {
                self
            },
            None => self,
        }
    }

    /// A line of text of the position that is being read.
    pub open spec fn continued(self, line: Seq<char>) -> RecoveryView {
        match self.current {
            Some(position) => if line == "Eventualposition ohne GB"@ {
                RecoveryView {
                    current: Some(
                        PositionView { provisional: true, price_only: true, ..position },
                    ),
                    ..self
                }
            } else if line == "Fortsetzung von vorheriger Seite"@ || line
                == "Fortsetzung auf nächster Seite"@ {
                self
            } else {
                RecoveryView { lines: self.lines.push(line), ..self }
            },
            None => self,
        }
    }

    /// One more line, its white space made single blanks.
    pub open spec fn line(self, line: Seq<char>, page: usize) -> RecoveryView {
        if line.len() == 0 || noise(line) {
            self
        } else {
            match first_match(PLACEHOLDER_POSITION@, line) {
                Some(g) => self.begun(g, page),
                None => {
                    let noted = self.headed(line, page);
                    if noted.current is Some && (is_matched(TITLE_SUM@, line) || is_matched(
                        ANY_POSITION@,
                        line,
                    )) {
                        noted.finished(page)
                    } else {
                        noted.continued(line)
                    }
                },
            }
        }
    }

    /// The first `n` lines of a page.
    pub open spec fn page_lines(self, all: Seq<Seq<char>>, n: nat, page: usize) -> RecoveryView
        decreases n,
    {
        if n == 0 {
            self
        } else {
            self.page_lines(all, (n - 1) as nat, page).line(single_spaced(all[n - 1]), page)
        }
    }
}

/// What has been read after the first `n` pages.
pub open spec fn pages_read(pages: Seq<Seq<char>>, n: nat) -> RecoveryView
    decreases n,
{
    if n == 0 {
        RecoveryView { headings: seq![], recovered: seq![], current: None, lines: seq![] }
    } else {
        let all = lines(pages[n - 1]);
        pages_read(pages, (n - 1) as nat).page_lines(all, all.len(), n as usize)
    }
}

struct Patterns {
    heading: Pattern,
    position: Pattern,
    any_position: Pattern,
    sum: Pattern,
    price: Pattern,
}

impl Patterns {
    spec fn ready(self) -> bool {
        &&& self.heading@ == PLACEHOLDER_HEADING@
        &&& self.position@ == PLACEHOLDER_POSITION@
        &&& self.any_position@ == ANY_POSITION@
        &&& self.sum@ == TITLE_SUM@
        &&& self.price@ == PRICED_DATA@
    }
}

/// Positions with placeholders that are being read.
pub struct Recovery {
    pub headings: Vec<Heading>,
    pub recovered: Vec<Position>,
    pub current: Option<Position>,
    pub lines: Vec<String>,
}

impl Recovery {
    pub open spec fn state(self) -> RecoveryView {
        RecoveryView {
            headings: heading_views(self.headings@),
            recovered: position_views(self.recovered@),
            current: match self.current {
                Some(p) => Some(p@),
                None => None,
            },
            lines: texts(self.lines@),
        }
    }

    fn finish_current(&mut self, patterns: &Patterns, page_to: usize)
        requires
            patterns.ready(),
        ensures
            final(self).state() == old(self).state().finished(page_to),
    {
        broadcast use group_model_views;
        let mut current: Option<Position> = None;
        std::mem::swap(&mut current, &mut self.current);
        if let Some(position) = current {
            let mut position = position;
            let mut lines: Vec<String> = Vec::new();
            std::mem::swap(&mut lines, &mut self.lines);
            let from: usize = match position.page_from {
                Some(p) => p,
                None => page_to,
            };
            position.page_to = Some(
                if page_to > from {
                    page_to
                } else {
                    from
                },
            );
            extract_leading_multiline_price(&patterns.price, &mut position, &mut lines);
            let clean = without_blank(&lines);
            assert(clean@.len() == texts(clean@).len());
            if clean.len() > 0 {
                assert(texts(clean@)[0] == clean@[0]@);
                let rest = vstd::slice::slice_subrange(clean.as_slice(), 1, clean.len());
                assert(texts(rest@) =~= texts(clean@).skip(1));
                position.short_text = clean[0].clone();
                position.long_text = joined(rest, "\n");
            }
            self.keep_position(position);
        }
    }

    /// Keeps a complete position if it says something.
    pub fn keep_position(&mut self, position: Position)
        ensures
            final(self).state() == old(self).state().kept(position@),
    {
        broadcast use group_model_views;
        if position.quantity.is_some() || position.unit_price.is_some() || !trimmed(
            position.short_text.as_str(),
        ).as_str().is_empty() || !trimmed(position.long_text.as_str()).as_str().is_empty() {
            self.recovered.push(position);
        }
        self.current = None;
        self.lines = Vec::new();
        assert(texts(self.lines@) =~= seq![]);
    }

    fn begin_position(&mut self, patterns: &Patterns, caps: &Vec<Option<Found>>, page: usize)
        requires
            patterns.ready(),
        ensures
            final(self).state() == old(self).state().begun(groups(caps@), page),
    {
        self.finish_current(patterns, page);
        let prices = patterns.price.first(captured_text(caps, 4).as_str());
        self.open_position(caps, &prices, page);
    }

    /// Starts a position, given the groups of its line and those of the price line in it.
    pub fn open_position(
        &mut self,
        caps: &Vec<Option<Found>>,
        prices: &Option<Vec<Option<Found>>>,
        page: usize,
    )
        ensures
            final(self).state() == old(self).state().opened(
                groups(caps@),
                opt_groups(*prices),
                page,
            ),
    {
        broadcast use lemma_texts_push;
        let rest = captured_text(caps, 4);
        let mut position = Position::default();
        position.oz = captured_text(caps, 1).concat(".").concat(
            captured_text(caps, 2).as_str(),
        ).concat(".00.").concat(captured_text(caps, 3).as_str());
        position.page_from = Some(page);
        match prices {
            Some(prices) => {
                apply_price_captures(&mut position, prices, rest.as_str());
            },
            None => {
                if !rest.as_str().is_empty() {
                    self.lines.push(rest);
                }
            },
        }
        self.current = Some(position);
    }

    /// Notes a heading, given what was found of it in a line.
    pub fn note_heading(&mut self, found: &Option<Vec<Option<Found>>>, page: usize)
        ensures
            final(self).state() == old(self).state().noted(opt_groups(*found), page),
    {
        if let Some(caps) = found {
            let oz = captured_text(caps, 1);
            if ends_with(oz.as_str(), ".06") || self.current.is_none() {
                let ghost before = heading_views(self.headings@);
                let heading = Heading {
                    oz,
                    title: trimmed(captured_text(caps, 2).as_str()),
                    page,
                };
                let ghost added = heading@;
                self.headings.push(heading);
                assert(heading_views(self.headings@) =~= before.push(added));
            }
        }
    }

    /// Keeps a line of text of the position that is being read.
    pub fn add_text(&mut self, line: String)
        ensures
            final(self).state() == old(self).state().continued(line@),
    {
        broadcast use lemma_texts_push;
        let mut current: Option<Position> = None;
        std::mem::swap(&mut current, &mut self.current);
        if let Some(position) = current {
            let mut position = position;
            if same(line.as_str(), "Eventualposition ohne GB") {
                position.provisional = true;
                position.price_only = true;
            } else if !same(line.as_str(), "Fortsetzung von vorheriger Seite") && !same(
                line.as_str(),
                "Fortsetzung auf nächster Seite",
            ) {
                self.lines.push(line);
            }
            self.current = Some(position);
        }
    }

    fn add_line(&mut self, patterns: &Patterns, line: String, page: usize)
        requires
            patterns.ready(),
        ensures
            final(self).state() == old(self).state().line(line@, page),
    {
        if line.as_str().is_empty() || is_noise(line.as_str()) {
            return;
        }
        if let Some(caps) = patterns.position.first(line.as_str()) {
            self.begin_position(patterns, &caps, page);
            return;
        }
        self.note_heading(&patterns.heading.first(line.as_str()), page);
        if self.current.is_some() && (patterns.sum.matches(line.as_str())
            || patterns.any_position.matches(line.as_str())) {
            self.finish_current(patterns, page);
            return;
        }
        self.add_text(line);
    }

    fn add_page(&mut self, patterns: &Patterns, text: &str, page: usize)
        requires
            patterns.ready(),
        ensures
            final(self).state() == old(self).state().page_lines(
                lines(text@),
                lines(text@).len(),
                page,
            ),
    {
        let all = split_lines(text);
        let ghost read = lines(text@);
        assert(all@.len() == texts(all@).len());
        let ghost start = self.state();
        let mut i: usize = 0;
        while i < all.len()
            invariant
                i <= all@.len() == read.len(),
                texts(all@) == read,
                patterns.ready(),
                self.state() == start.page_lines(read, i as nat, page),
            decreases all@.len() - i,
        {
            assert(read[i as int] == all@[i as int]@);
            let line = normalize_line(all[i].as_str());
            self.add_line(patterns, line, page);
            i = i + 1;
        }
    }
}

/// The positions with placeholders in a text, and the headings above them.
pub open spec fn recovery_of(text: Seq<char>) -> RecoveryView {
    let pages = split(text, '\u{c}');
    pages_read(pages, pages.len()).finished(pages.len() as usize)
}

fn recover(text: &str) -> (r: Recovery)
    ensures
        r.state() == recovery_of(text@),
{
    let patterns = Patterns {
        heading: Pattern::new(PLACEHOLDER_HEADING),
        position: Pattern::new(PLACEHOLDER_POSITION),
        any_position: Pattern::new(ANY_POSITION),
        sum: Pattern::new(TITLE_SUM),
        price: Pattern::new(PRICED_DATA),
    };
    let pages = parts(text, '\u{c}');
    let ghost all = split(text@, '\u{c}');
    assert(pages@.len() == texts(pages@).len());
    let mut reading = Recovery {
        headings: Vec::new(),
        recovered: Vec::new(),
        current: None,
        lines: Vec::new(),
    };
    assert(reading.state() =~= pages_read(all, 0));
    let mut i: usize = 0;
    while i < pages.len()
        invariant
            i <= pages@.len() == all.len(),
            texts(pages@) == all,
            patterns.ready(),
            reading.state() == pages_read(all, i as nat),
        decreases pages@.len() - i,
    {
        assert(all[i as int] == pages@[i as int]@);
        reading.add_page(&patterns, pages[i].as_str(), i + 1);
        i = i + 1;
    }
    reading.finish_current(&patterns, pages.len());
    reading
}

/// Whether a position of the tree has this ordinal number.
pub open spec fn has_oz(nodes: Seq<NodeView>, oz: Seq<char>) -> bool {
    exists|i: int| 0 <= i < positions_of(nodes).len() && (#[trigger] positions_of(nodes)[i]).oz == oz
}

pub fn contains_oz(nodes: &Vec<Node>, oz: &str) -> (r: bool)
    ensures
        r == has_oz(node_views(nodes@), oz@),
{
    let all = positions(nodes);
    let ghost views = positions_of(node_views(nodes@));
    assert(all@.len() == ref_views(all@).len());
    let mut i: usize = 0;
    while i < all.len()
        invariant
            i <= all@.len() == views.len(),
            ref_views(all@) == views,
            views == positions_of(node_views(nodes@)),
            forall|j: int| 0 <= j < i ==> (#[trigger] views[j]).oz != oz@,
        decreases all@.len() - i,
    {
        assert(views[i as int] == all@[i as int]@);
        if same(all[i].oz.as_str(), oz) {
            return true;
        }
        i = i + 1;
    }
    false
}

/// The parts of the heading under which a recovered position stands.
pub open spec fn heading_path(oz: Seq<char>) -> Seq<Seq<char>> {
    let p = split(oz, '.');
    if p.len() < 3 {
        p
    } else {
        p.take(3)
    }
}

/// The tree with those of the first `n` recovered positions that it does not have yet,
/// and their number.
pub open spec fn supplemented(
    roots: Seq<NodeView>,
    found: Seq<PositionView>,
    headings: Seq<HeadingView>,
    n: nat,
) -> (Seq<NodeView>, nat)
    decreases n,
{
    if n == 0 {
        (roots, 0)
    } else {
        let (before, count) = supplemented(roots, found, headings, (n - 1) as nat);
        let p = found[n - 1];
        let page = match p.page_from {
            Some(page) => page,
            None => 0,
        };
        if has_oz(before, p.oz) {
            (before, count)
        } else {
            (filed(before, heading_path(p.oz), 0, headings, page, p), count + 1)
        }
    }
}

fn insert_position(roots: &mut Vec<Node>, position: Position, headings: &Vec<Heading>)
    ensures
        node_views(final(roots)@) == filed(
            node_views(old(roots)@),
            heading_path(position@.oz),
            0,
            heading_views(headings@),
            match position@.page_from {
                Some(page) => page,
                None => 0,
            },
            position@,
        ),
{
    let mut path = parts(position.oz.as_str(), '.');
    proof {
        lemma_split_len(position.oz@, '.');
        assert(path@.len() == texts(path@).len());
    }
    let ghost all = texts(path@);
    if path.len() > 3 {
        path.truncate(3);
    }
    assert(texts(path@) =~= heading_path(position@.oz));
    let page: usize = match position.page_from {
        Some(page) => page,
        None => 0,
    };
    ensure_path(roots, &path, 0, headings, page, position);
}

/// The bill with the positions that have placeholders, in the order of the ordinal
/// numbers.
pub open spec fn with_placeholders(boq: BoqView, text: Seq<char>) -> (BoqView, nat) {
    let read = recovery_of(text);
    let (roots, count) = supplemented(boq.roots, read.recovered, read.headings, read.recovered.len());
    (BoqView { roots: sorted_tree(roots), ..boq }, count)
}

/// Adds the positions of a text whose ordinal numbers have placeholders, and tells how
/// many there were.
pub fn recover_from_text(text: &str, boq: &mut BillOfQuantities) -> (r: Result<usize, Error>)
    ensures
        r is Ok,
        final(boq)@ == with_placeholders(old(boq)@, text@).0,
        r->Ok_0 == with_placeholders(old(boq)@, text@).1,
{
    broadcast use group_model_views;
    let ghost start = boq@.roots;
    let Recovery { headings, recovered, current: _, lines: _ } = recover(text);
    let ghost found = position_views(recovered@);
    let ghost read = heading_views(headings@);
    let mut count: usize = 0;
    let mut i: usize = 0;
    let ghost others = boq@;
    while i < recovered.len()
        invariant
            i <= recovered@.len(),
            found == position_views(recovered@),
            read == heading_views(headings@),
            count <= i,
            (boq@.roots, count as nat) == supplemented(start, found, read, i as nat),
            boq@ == (BoqView { roots: boq@.roots, ..others }),
        decreases recovered@.len() - i,
    {
        assert(found[i as int] == recovered@[i as int]@);
        if !contains_oz(&boq.roots, recovered[i].oz.as_str()) {
            insert_position(&mut boq.roots, recovered[i].clone(), &headings);
            count = count + 1;
        }
        i = i + 1;
    }
    sort_hierarchy(&mut boq.roots);
    Ok(count)
}

/// Adds the positions of a text whose ordinal numbers have placeholders, and tells how
/// many there were.
pub fn recover_placeholder_positions_from_text(text: &str, boq: &mut BillOfQuantities) -> (r: Result<
    usize,
    Error,
>)
    ensures
        r is Ok,
        final(boq)@ == with_placeholders(old(boq)@, text@).0,
        r->Ok_0 == with_placeholders(old(boq)@, text@).1,
{
    recover_from_text(text, boq)
}

} // verus!
