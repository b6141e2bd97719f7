//! Reading of bills in which every ordinal number has four parts: two digits for each of
//! three headings and three for the position. Everything else is text.

use crate::document::{failure, Error};
use crate::model::{
    empty_boq, empty_position, BillOfQuantities, BoqView, Position, PositionView,
};
use crate::outline::lemma_split_len;
use crate::parser::{
    apply_heading_titles, apply_price_captures, bill_warnings, boq_outcome, described, ensure_path,
    extract_metadata, filed, heading_views, overflow_message, priced, validate, with_heading_titles,
    with_metadata, without_empty, Heading, HeadingView,
};
use crate::patterns::{
    captured_text, first_match, group_text, groups, is_matched, opt_groups, Found, FoundView,
    Pattern, FOOTER, OZ_AND_REST, PRICED_DATA, SUBTITLE_SUM, TWO_DIGIT_HEADING,
};
use crate::text::{
    join, joined, lemma_texts_push, lines, normalize_line, parts, same, single_spaced, split,
    split_lines, starts_with, texts, trim, trimmed,
};
use crate::tree::positions_of;
use vstd::prelude::*;

verus! {

/// Whether a line is part of the head or foot of a page.
pub open spec fn noise(line: Seq<char>) -> bool {
    ||| line.len() == 0
    ||| is_matched(FOOTER@, line)
    ||| "Angebot"@.is_prefix_of(line)
    ||| "Auftraggeber "@.is_prefix_of(line)
    ||| "Bieter "@.is_prefix_of(line)
    ||| "Projekt "@.is_prefix_of(line)
    ||| "LV "@.is_prefix_of(line)
    ||| "OZ Menge / Einheit EP GB"@.is_prefix_of(line)
}

pub fn is_noise(line: &str, footer: &Pattern) -> (r: bool)
    requires
        footer@ == FOOTER@,
    ensures
        r == noise(line@),
{
    line.is_empty() || footer.matches(line) || starts_with(line, "Angebot") || starts_with(
        line,
        "Auftraggeber ",
    ) || starts_with(line, "Bieter ") || starts_with(line, "Projekt ") || starts_with(line, "LV ")
        || starts_with(line, "OZ Menge / Einheit EP GB")
}

/// A position that ends on this page, or on its first page where none is given, with what
/// its lines say.
pub open spec fn completed(p: PositionView, all: Seq<Seq<char>>, page_to: usize) -> PositionView {
    described(
        PositionView {
            page_to: if page_to > 0 {
                Some(page_to)
            } else {
                p.page_from
            },
            ..p
        },
        all,
    )
}

/// The ordinal number of the heading under which a position stands, in its parts: the
/// first three of its own.
pub open spec fn path_of(oz: Seq<char>) -> Seq<Seq<char>> {
    let p = split(oz, '.');
    split(
        join(
            if p.len() > 3 {
                p.take(3)
            } else {
                p
            },
            "."@,
        ),
        '.',
    )
}

/// What has been read of a document.
#[verifier::ext_equal]
pub struct ReadView {
    pub boq: BoqView,
    pub headings: Seq<HeadingView>,
    pub current: Option<PositionView>,
    pub lines: Seq<Seq<char>>,
    pub preamble: Seq<Seq<char>>,
}

impl ReadView {
    /// The position that is being read, if any, is complete.
    pub open spec fn finished(self, page: usize) -> ReadView {
        match self.current {
            None => self,
            Some(position) => {
                let done = completed(position, self.lines, page);
                let fallback = match done.page_from {
                    Some(p) => p,
                    None => 0,
                };
                ReadView {
                    boq: BoqView {
                        roots: filed(
                            self.boq.roots,
                            path_of(done.oz),
                            0,
                            self.headings,
                            fallback,
                            done,
                        ),
                        ..self.boq
                    },
                    current: None,
                    lines: seq![],
                    ..self
                }
            },
        }
    }

    /// A position starts with this line.
    pub open spec fn begun(self, g: Seq<Option<FoundView>>, page: usize) -> ReadView {
        self.opened(g, first_match(PRICED_DATA@, group_text(g, 2)), page)
    }

    /// A position starts with the groups of a line, and with those of the price line that
    /// the rest of the line is, if it is one.
    pub open spec fn opened(
        self,
        g: Seq<Option<FoundView>>,
        prices: Option<Seq<Option<FoundView>>>,
        page: usize,
    ) -> ReadView {
        let before = self.finished(page);
        let rest = group_text(g, 2);
        let position = PositionView {
            oz: group_text(g, 1),
            page_from: Some(page),
            ..empty_position()
        };
        match prices {
            Some(p) => ReadView { current: Some(priced(position, p, rest)), ..before },
            None => ReadView {
                current: Some(position),
                lines: if rest.len() == 0 {
                    before.lines
                } else {
                    before.lines.push(rest)
                },
                ..before
            },
        }
    }

    /// A line with a heading.
    pub open spec fn headed(self, g: Seq<Option<FoundView>>, page: usize) -> ReadView {
        let before = self.finished(page);
        ReadView {
            headings: before.headings.push(
                HeadingView { oz: group_text(g, 1), title: trim(group_text(g, 2)), page },
            ),
            ..before
        }
    }

    /// A line of text: it belongs to the position that is being read, or on one of the
    /// first pages to the preamble.
    pub open spec fn continued(self, line: Seq<char>, page: usize) -> ReadView {
        match self.current {
            Some(position) => if line == "Eventualposition ohne GB"@ {
                ReadView {
                    current: Some(
                        PositionView { provisional: true, price_only: true, ..position },
                    ),
                    ..self
                }
            } else if line == "Fortsetzung von vorheriger Seite"@ || line
                == "Fortsetzung auf nächster Seite"@ {
                self
            } else {
                ReadView { lines: self.lines.push(line), ..self }
            },
            None => if page < 15 {
                ReadView { preamble: self.preamble.push(line), ..self }
            } else {
                self
            },
        }
    }

    /// One more line, its white space made single blanks.
    pub open spec fn line(self, line: Seq<char>, page: usize) -> ReadView {
        if noise(line) {
            self
        } else if let Some(g) = first_match(OZ_AND_REST@, line) {
            self.begun(g, page)
        } else if let Some(g) = first_match(TWO_DIGIT_HEADING@, line) {
            self.headed(g, page)
        } else if is_matched(SUBTITLE_SUM@, line) {
            self.finished(page)
        } else {
            self.continued(line, page)
        }
    }

    /// The first `n` lines of a page.
    pub open spec fn page_lines(self, all: Seq<Seq<char>>, n: nat, page: usize) -> ReadView
        decreases n,
    {
        if n == 0 {
            self
        } else {
            self.page_lines(all, (n - 1) as nat, page).line(single_spaced(all[n - 1]), page)
        }
    }

    /// A page.
    pub open spec fn page(self, text: Seq<char>, page: usize) -> ReadView {
        let all = lines(text);
        (ReadView { boq: with_metadata(self.boq, all, all.len()), ..self }).page_lines(
            all,
            all.len(),
            page,
        )
    }
}

/// What has been read after the first `n` pages.
pub open spec fn pages_read(boq: BoqView, pages: Seq<Seq<char>>, n: nat) -> ReadView
    decreases n,
{
    if n == 0 {
        ReadView { boq, headings: seq![], current: None, lines: seq![], preamble: seq![] }
    } else {
        pages_read(boq, pages, (n - 1) as nat).page(pages[n - 1], n as usize)
    }
}

/// The bill that the text of a document gives.
pub open spec fn bill_of_text(source: Seq<char>, text: Seq<char>) -> Result<BoqView, Seq<char>> {
    let pages = split(text, '\u{c}');
    let read = pages_read(empty_boq(source), pages, pages.len()).finished(0);
    let roots = with_heading_titles(read.boq.roots, read.headings);
    let all = positions_of(roots);
    match bill_warnings(all, all.len()) {
        Some(warnings) => Ok(
            BoqView {
                preamble: trim(join(read.preamble, "\n"@)),
                roots,
                warnings: read.boq.warnings + warnings,
                ..read.boq
            },
        ),
        None => Err(overflow_message()),
    }
}

struct Patterns {
    heading: Pattern,
    position_start: Pattern,
    priced_data: Pattern,
    sum: Pattern,
    footer: Pattern,
}

impl Patterns {
    spec fn ready(self) -> bool {
        &&& self.heading@ == TWO_DIGIT_HEADING@
        &&& self.position_start@ == OZ_AND_REST@
        &&& self.priced_data@ == PRICED_DATA@
        &&& self.sum@ == SUBTITLE_SUM@
        &&& self.footer@ == FOOTER@
    }

    fn new() -> (r: Patterns)
        ensures
            r.ready(),
    {
        Patterns {
            heading: Pattern::new(TWO_DIGIT_HEADING),
            position_start: Pattern::new(OZ_AND_REST),
            priced_data: Pattern::new(PRICED_DATA),
            sum: Pattern::new(SUBTITLE_SUM),
            footer: Pattern::new(FOOTER),
        }
    }
}

fn complete(position: Position, lines: &Vec<String>, page_to: usize) -> (r: Position)
    ensures
        r@ == completed(position@, texts(lines@), page_to),
{
    let mut position = position;
    position.page_to = if page_to > 0 {
        Some(page_to)
    } else {
        position.page_from
    };
    let cleaned = without_empty(lines);
    assert(cleaned@.len() == texts(cleaned@).len());
    if cleaned.len() > 0 {
        assert(texts(cleaned@)[0] == cleaned@[0]@);
        let rest = vstd::slice::slice_subrange(cleaned.as_slice(), 1, cleaned.len());
        assert(texts(rest@) =~= texts(cleaned@).skip(1));
        position.short_text = cleaned[0].clone();
        position.long_text = joined(rest, "\n");
    }
    position
}

fn path(oz: &str) -> (r: Vec<String>)
    ensures
        texts(r@) == path_of(oz@),
        r@.len() > 0,
{
    let found = parts(oz, '.');
    assert(found@.len() == texts(found@).len());
    let above = if found.len() > 3 {
        let front = vstd::slice::slice_subrange(found.as_slice(), 0, 3);
        assert(texts(front@) =~= texts(found@).take(3));
        joined(front, ".")
    } else {
        joined(found.as_slice(), ".")
    };
    let r = parts(above.as_str(), '.');
    proof {
        lemma_split_len(above@, '.');
        assert(r@.len() == texts(r@).len());
    }
    r
}

/// A document that is being read.
pub struct Reading {
    pub boq: BillOfQuantities,
    pub headings: Vec<Heading>,
    pub current: Option<Position>,
    pub lines: Vec<String>,
    pub preamble: Vec<String>,
}

impl Reading {
    pub open spec fn state(self) -> ReadView {
        ReadView {
            boq: self.boq@,
            headings: heading_views(self.headings@),
            current: match self.current {
                Some(p) => Some(p@),
                None => None,
            },
            lines: texts(self.lines@),
            preamble: texts(self.preamble@),
        }
    }

    /// Completes the position that is being read, if any.
    pub fn finish_position(&mut self, page: usize)
        ensures
            final(self).state() == old(self).state().finished(page),
    {
        let mut current: Option<Position> = None;
        std::mem::swap(&mut current, &mut self.current);
        if let Some(position) = current {
            let mut gathered: Vec<String> = Vec::new();
            std::mem::swap(&mut gathered, &mut self.lines);
            let done = complete(position, &gathered, page);
            let above = path(done.oz.as_str());
            let fallback: usize = match done.page_from {
                Some(p) => p,
                None => 0,
            };
            ensure_path(&mut self.boq.roots, &above, 0, &self.headings, fallback, done);
            assert(texts(self.lines@) =~= seq![]);
        }
    }

    fn begin_position(&mut self, patterns: &Patterns, caps: &Vec<Option<Found>>, page: usize)
        requires
            patterns.ready(),
        ensures
            final(self).state() == old(self).state().begun(groups(caps@), page),
    {
        let prices = patterns.priced_data.first(captured_text(caps, 2).as_str());
        self.open_position(caps, &prices, page);
    }

    /// Starts a position, given the groups of its line and those of the price line in it.
    pub fn open_position(
        &mut self,
        caps: &Vec<Option<Found>>,
        prices: &Option<Vec<Option<Found>>>,
        page: usize,
    )
        ensures
            final(self).state() == old(self).state().opened(
                groups(caps@),
                opt_groups(*prices),
                page,
            ),
    {
        broadcast use lemma_texts_push;
        self.finish_position(page);
        let rest = captured_text(caps, 2);
        let mut position = Position::default();
        position.oz = captured_text(caps, 1);
        position.page_from = Some(page);
        match prices {
            Some(prices) => {
                apply_price_captures(&mut position, prices, rest.as_str());
            },
            None => {
                if !rest.as_str().is_empty() {
                    self.lines.push(rest);
                }
            },
        }
        self.current = Some(position);
    }

    /// Keeps a heading, given the groups of its line.
    pub fn add_heading(&mut self, caps: &Vec<Option<Found>>, page: usize)
        ensures
            final(self).state() == old(self).state().headed(groups(caps@), page),
    {
        self.finish_position(page);
        let ghost before = heading_views(self.headings@);
        let heading = Heading {
            oz: captured_text(caps, 1),
            title: trimmed(captured_text(caps, 2).as_str()),
            page,
        };
        let ghost added = heading@;
        self.headings.push(heading);
        assert(heading_views(self.headings@) =~= before.push(added));
    }

    /// Keeps a line of text.
    pub fn add_text(&mut self, line: String, page: usize)
        ensures
            final(self).state() == old(self).state().continued(line@, page),
    {
        broadcast use lemma_texts_push;
        let mut current: Option<Position> = None;
        std::mem::swap(&mut current, &mut self.current);
        match current {
            Some(position) => {
                let mut position = position;
                if same(line.as_str(), "Eventualposition ohne GB") {
                    position.provisional = true;
                    position.price_only = true;
                } else if !same(line.as_str(), "Fortsetzung von vorheriger Seite") && !same(
                    line.as_str(),
                    "Fortsetzung auf nächster Seite",
                ) {
                    self.lines.push(line);
                }
                self.current = Some(position);
            },
            None => {
                if page < 15 {
                    self.preamble.push(line);
                }
            },
        }
    }

    fn add_line(&mut self, patterns: &Patterns, line: String, page: usize)
        requires
            patterns.ready(),
        ensures
            final(self).state() == old(self).state().line(line@, page),
    {
        if is_noise(line.as_str(), &patterns.footer) {
            return;
        }
        if let Some(caps) = patterns.position_start.first(line.as_str()) {
            self.begin_position(patterns, &caps, page);
            return;
        }
        if let Some(caps) = patterns.heading.first(line.as_str()) {
            self.add_heading(&caps, page);
            return;
        }
        if patterns.sum.matches(line.as_str()) {
            self.finish_position(page);
            return;
        }
        self.add_text(line, page);
    }

    fn add_page(&mut self, patterns: &Patterns, text: &str, page: usize)
        requires
            patterns.ready(),
        ensures
            final(self).state() == old(self).state().page(text@, page),
    {
        extract_metadata(&mut self.boq, text);
        let all = split_lines(text);
        let ghost read = lines(text@);
        assert(all@.len() == texts(all@).len());
        let ghost start = self.state();
        let mut i: usize = 0;
        while i < all.len()
            invariant
                i <= all@.len() == read.len(),
                texts(all@) == read,
                patterns.ready(),
                self.state() == start.page_lines(read, i as nat, page),
            decreases all@.len() - i,
        {
            assert(read[i as int] == all@[i as int]@);
            let line = normalize_line(all[i].as_str());
            self.add_line(patterns, line, page);
            i = i + 1;
        }
    }
}

/// The bill that the text of a document gives.
pub fn parse_text(source: &str, text: &str) -> (r: Result<BillOfQuantities, Error>)
    ensures
        boq_outcome(r) == bill_of_text(source@, text@),
{
    let patterns = Patterns::new();
    let pages = parts(text, '\u{c}');
    let ghost all = split(text@, '\u{c}');
    let ghost empty = empty_boq(source@);
    assert(pages@.len() == texts(pages@).len());
    let mut reading = Reading {
        boq: BillOfQuantities::new(source),
        headings: Vec::new(),
        current: None,
        lines: Vec::new(),
        preamble: Vec::new(),
    };
    assert(reading.state() =~= pages_read(empty, all, 0));
    let mut i: usize = 0;
    while i < pages.len()
        invariant
            i <= pages@.len() == all.len(),
            texts(pages@) == all,
            patterns.ready(),
            reading.state() == pages_read(empty, all, i as nat),
        decreases pages@.len() - i,
    {
        assert(all[i as int] == pages@[i as int]@);
        reading.add_page(&patterns, pages[i].as_str(), i + 1);
        i = i + 1;
    }
    reading.finish_position(0);
    let Reading { boq, headings, current: _, lines: _, preamble } = reading;
    let mut boq = boq;
    boq.preamble = trimmed(joined(preamble.as_slice(), "\n").as_str());
    apply_heading_titles(&mut boq.roots, &headings);
    if validate(&mut boq) {
        Ok(boq)
    } else {
        Err(failure("Preisberechnung überschreitet den Zahlenbereich"))
    }
}

} // verus!
