//! The imprint of the operator, taken from a web page.

use crate::text::{
    contains, has, join, joined, lemma_texts_push, same, same_ignoring_case, split_words, texts,
    ascii_lowercase, trim, trimmed, words,
};
use vstd::prelude::*;

verus! {

/// A block of a page: the texts in each of its headings, and all its texts.
pub struct Block {
    pub headings: Vec<Vec<String>>,
    pub texts: Vec<String>,
}

/// What a block of a page is.
#[verifier::ext_equal]
pub struct BlockView {
    pub headings: Seq<Seq<Seq<char>>>,
    pub texts: Seq<Seq<char>>,
}

impl View for Block {
    type V = BlockView;

    open spec fn view(&self) -> BlockView {
        BlockView {
            headings: Seq::new(self.headings@.len(), |i: int| texts(self.headings@[i]@)),
            texts: texts(self.texts@),
        }
    }
}

pub open spec fn block_views(v: Seq<Block>) -> Seq<BlockView> {
    Seq::new(v.len(), |i: int| v[i]@)
}

pub open spec fn opt_blocks(v: Option<Vec<Block>>) -> Option<Seq<BlockView>> {
    match v {
        Some(blocks) => Some(block_views(blocks@)),
        None => None,
    }
}

/// The blocks of a page that a selector finds, each with the headings in it that another
/// finds; nothing where one of the selectors is not one.
pub uninterp spec fn blocks_of(page: Seq<char>, block: Seq<char>, heading: Seq<char>) -> Option<
    Seq<BlockView>,
>;

/// `Html::parse_document`, `Html::select` and `ElementRef::text` of `scraper`: the
/// elements that a selector finds, with their texts and those of the elements in each
/// that the other selector finds. What is found, and in what order, depends on the page
/// and the selectors alone.
#[verifier::external_body]
fn select_blocks(page: &str, block: &str, heading: &str) -> (r: Option<Vec<Block>>)
    ensures
        opt_blocks(r) == blocks_of(page@, block@, heading@),
{
    let block = scraper::Selector::parse(block).ok()?;
    let heading = scraper::Selector::parse(heading).ok()?;
    Some(scraper::Html::parse_document(page).select(&block).map(|found| Block {
        headings: found.select(&heading).map(|h| h.text().map(|t| t.to_owned()).collect()).collect(),
        texts: found.text().map(|t| t.to_owned()).collect(),
    }).collect())
}

/// A part of an imprint.
pub struct ImprintSection {
    pub heading: String,
    pub lines: Vec<String>,
}

/// What a part of an imprint is.
#[verifier::ext_equal]
pub struct SectionView {
    pub heading: Seq<char>,
    pub lines: Seq<Seq<char>>,
}

impl View for ImprintSection {
    type V = SectionView;

    open spec fn view(&self) -> SectionView {
        SectionView { heading: self.heading@, lines: texts(self.lines@) }
    }
}

pub open spec fn section_views(v: Seq<ImprintSection>) -> Seq<SectionView> {
    Seq::new(v.len(), |i: int| v[i]@)
}

/// The words of texts.
pub open spec fn words_of(parts: Seq<Seq<char>>) -> Seq<Seq<char>>
    decreases parts.len(),
{
    if parts.len() == 0 {
        seq![]
    } else {
        words_of(parts.drop_last()) + words(parts.last())
    }
}

/// Texts run together with single blanks between their words.
pub open spec fn run_together(parts: Seq<Seq<char>>) -> Seq<char> {
    join(words_of(parts), " "@)
}

pub fn normalized_text(parts: &Vec<String>) -> (r: String)
    ensures
        r@ == run_together(texts(parts@)),
{
    let ghost all = texts(parts@);
    let mut found: Vec<String> = Vec::new();
    let mut i: usize = 0;
    assert(texts(found@) =~= words_of(all.take(0)));
    while i < parts.len()
        invariant
            i <= parts@.len(),
            all == texts(parts@),
            texts(found@) == words_of(all.take(i as int)),
        decreases parts@.len() - i,
    {
        assert(all.take(i + 1).drop_last() =~= all.take(i as int));
        assert(all.take(i + 1).last() == parts@[i as int]@);
        let ghost before = texts(found@);
        let mut more = split_words(parts[i].as_str());
        let ghost next = texts(more@);
        found.append(&mut more);
        assert(texts(found@) =~= before + next);
        i = i + 1;
    }
    assert(all.take(parts@.len() as int) =~= all);
    joined(found.as_slice(), " ")
}

/// The texts that say something, without white space at their ends.
pub open spec fn written(v: Seq<Seq<char>>) -> Seq<Seq<char>>
    decreases v.len(),
{
    if v.len() == 0 {
        seq![]
    } else if trim(v.last()).len() == 0 {
        written(v.drop_last())
    } else {
        written(v.drop_last()).push(trim(v.last()))
    }
}

fn written_texts(v: &Vec<String>) -> (r: Vec<String>)
    ensures
        texts(r@) == written(texts(v@)),
{
    broadcast use lemma_texts_push;
    let ghost all = texts(v@);
    let mut r: Vec<String> = Vec::new();
    let mut i: usize = 0;
    while i < v.len()
        invariant
            i <= v@.len(),
            all == texts(v@),
            texts(r@) == written(all.take(i as int)),
        decreases v@.len() - i,
    {
        broadcast use lemma_texts_push;
        assert(all.take(i + 1).drop_last() =~= all.take(i as int));
        assert(all.take(i + 1).last() == v@[i as int]@);
        let t = trimmed(v[i].as_str());
        if !t.as_str().is_empty() {
            r.push(t);
        }
        i = i + 1;
    }
    assert(all.take(v@.len() as int) =~= all);
    r
}

/// What has been read of an imprint.
#[verifier::ext_equal]
pub struct ImprintView {
    pub started: bool,
    pub ended: bool,
    pub sections: Seq<SectionView>,
}

/// The lines of a block behind its heading.
pub open spec fn lines_behind(block: BlockView, heading: Seq<char>) -> Seq<Seq<char>> {
    let all = written(block.texts);
    if all.len() > 0 && all[0] == heading {
        all.skip(1)
    } else {
        all
    }
}

impl ImprintView {
    /// One more block, known by its first heading. The imprint starts with the operator and ends with the areas of
    /// business.
    pub open spec fn block(self, block: BlockView) -> ImprintView {
        if block.headings.len() == 0 {
            self
        } else {
            let heading = run_together(block.headings[0]);
            let started = self.started || contains(heading, "Seitenbetreiber"@);
            let lines = lines_behind(block, heading);
            if self.ended || !started {
                ImprintView { started: self.started || (started && !self.ended), ..self }
            } else if ascii_lowercase(heading) == ascii_lowercase("unsere Unternehmensbereiche"@) {
                ImprintView { started, ended: true, ..self }
            } else if heading.len() > 0 && lines.len() > 0 {
                ImprintView {
                    started,
                    sections: self.sections.push(SectionView { heading, lines }),
                    ..self
                }
            } else {
                ImprintView { started, ..self }
            }
        }
    }
}

/// What the first `n` blocks say.
pub open spec fn imprint_until(blocks: Seq<BlockView>, n: nat) -> ImprintView
    decreases n,
{
    if n == 0 {
        ImprintView { started: false, ended: false, sections: seq![] }
    } else {
        imprint_until(blocks, (n - 1) as nat).block(blocks[n - 1])
    }
}

/// The imprint in blocks, if there is enough of one.
pub open spec fn imprint_in(blocks: Seq<BlockView>) -> Option<Seq<SectionView>> {
    let sections = imprint_until(blocks, blocks.len()).sections;
    if sections.len() >= 3 {
        Some(sections)
    } else {
        None
    }
}

pub open spec fn opt_sections(v: Option<Vec<ImprintSection>>) -> Option<Seq<SectionView>> {
    match v {
        Some(sections) => Some(section_views(sections@)),
        None => None,
    }
}

struct Reading {
    started: bool,
    ended: bool,
    sections: Vec<ImprintSection>,
}

impl Reading {
    spec fn state(self) -> ImprintView {
        ImprintView {
            started: self.started,
            ended: self.ended,
            sections: section_views(self.sections@),
        }
    }

    fn add(&mut self, block: &Block)
        ensures
            final(self).state() == old(self).state().block(block@),
    {
        if self.ended {
            return;
        }
        if block.headings.len() > 0 {
            assert(block@.headings[0] == texts(block.headings@[0]@));
            let heading = normalized_text(&block.headings[0]);
            if has(heading.as_str(), "Seitenbetreiber") {
                self.started = true;
            }
            if !self.started {
                return;
            }
            if same_ignoring_case(heading.as_str(), "unsere Unternehmensbereiche") {
                self.ended = true;
                return;
            }
            let mut lines = written_texts(&block.texts);
            let ghost all = texts(lines@);
            assert(lines@.len() == all.len());
            if lines.len() > 0 {
                assert(all[0] == lines@[0]@);
                if same(lines[0].as_str(), heading.as_str()) {
                    lines.remove(0);
                    assert(texts(lines@) =~= all.skip(1));
                }
            }
            assert(texts(lines@) == lines_behind(block@, heading@));
            assert(lines@.len() == texts(lines@).len());
            if !heading.as_str().is_empty() && lines.len() > 0 {
                let ghost before = section_views(self.sections@);
                let section = ImprintSection { heading, lines };
                let ghost added = section@;
                self.sections.push(section);
                assert(section_views(self.sections@) =~= before.push(added));
            }
        }
    }
}

/// The imprint in blocks, if there is enough of one.
pub fn imprint_sections(blocks: &Vec<Block>) -> (r: Option<Vec<ImprintSection>>)
    ensures
        opt_sections(r) == imprint_in(block_views(blocks@)),
{
    let ghost all = block_views(blocks@);
    let mut reading = Reading { started: false, ended: false, sections: Vec::new() };
    assert(reading.state() =~= imprint_until(all, 0));
    let mut i: usize = 0;
    while i < blocks.len()
        invariant
            i <= blocks@.len(),
            all == block_views(blocks@),
            reading.state() == imprint_until(all, i as nat),
        decreases blocks@.len() - i,
    {
        assert(all[i as int] == blocks@[i as int]@);
        reading.add(&blocks[i]);
        i = i + 1;
    }
    assert(section_views(reading.sections@).len() == reading.sections@.len());
    if reading.sections.len() >= 3 {
        Some(reading.sections)
    } else {
        None
    }
}

/// The imprint on a web page, if there is one.
pub open spec fn imprint_on(body: Seq<char>) -> Option<Seq<SectionView>> {
    match blocks_of(body, ".thrv_text_element"@, "h3"@) {
        Some(blocks) => imprint_in(blocks),
        None => None,
    }
}

pub fn extract_imprint_sections(body: &str) -> (r: Option<Vec<ImprintSection>>)
    ensures
        opt_sections(r) == imprint_on(body@),
{
    match select_blocks(body, ".thrv_text_element", "h3") {
        Some(blocks) => imprint_sections(&blocks),
        None => None,
    }
}

} // verus!
