//! Repairs by the page layout: short texts set in bold type over several lines, and
//! references to other positions that were read as positions.

use crate::document::Error;
use crate::gaeb2000::{behind, strip_prefix};
use crate::layout::{
    attr, attr_value, fragment_views, fragments_of, layout_pages, page_fragments, page_views,
    pages_of, Fragment, FragmentView, PageView,
};
use crate::model::{
    group_model_views, node_views, position_views, BillOfQuantities, BoqView, Node, NodeView,
    Position, PositionView,
};
use crate::order::{arrange, arranged, key_of, keys_of, law_ranking};
use crate::patterns::{
    all_groups, all_matches, captured_text, first_match, group_text, groups, is_matched, Found,
    FoundView, Pattern, HEADING_NUMBER, LAYOUT_FONT, OZ_AND_REST, QUANTITY_AND_UNIT,
};
use crate::text::{
    contains, has, has_char, join, joined, lemma_texts_push, lines, listed, lower, lowered,
    normalize_line, same, single_spaced, split_lines, starts_with, texts, trim, trimmed, words,
};
use crate::text_laws::{law_single_spaced, tidy};
use crate::tree::{positions, positions_of, ref_views};
use vstd::prelude::*;

verus! {

/// Whether a text only refers to a position.
pub open spec fn reference_text(value: Seq<char>) -> bool {
    let start = lower(trim(value));
    ||| "zulage zu position"@.is_prefix_of(start)
    ||| "zulage zur position"@.is_prefix_of(start)
    ||| "zulage zu pos."@.is_prefix_of(start)
    ||| "zulage zur pos."@.is_prefix_of(start)
    ||| "positionsbezug"@.is_prefix_of(start)
    ||| "positions-bezug"@.is_prefix_of(start)
    ||| "bezug zu position"@.is_prefix_of(start)
    ||| "bezug auf position"@.is_prefix_of(start)
}

pub fn is_reference_text(value: &str) -> (r: bool)
    ensures
        r == reference_text(value@),
{
    let start = lowered(trimmed(value).as_str());
    let start = start.as_str();
    starts_with(start, "zulage zu position") || starts_with(start, "zulage zur position")
        || starts_with(start, "zulage zu pos.") || starts_with(start, "zulage zur pos.")
        || starts_with(start, "positionsbezug") || starts_with(start, "positions-bezug")
        || starts_with(start, "bezug zu position") || starts_with(start, "bezug auf position")
}

/// The first line that is not blank, or an empty one.
pub open spec fn first_written(all: Seq<Seq<char>>) -> Seq<char>
    decreases all.len(),
{
    if all.len() == 0 {
        seq![]
    } else if trim(all[0]).len() > 0 {
        all[0]
    } else {
        first_written(all.skip(1))
    }
}

/// Whether a position only refers to another one.
pub open spec fn reference_position(p: PositionView) -> bool {
    reference_text(first_written(lines(p.short_text) + lines(p.long_text)))
}

fn first_line(all: &Vec<String>) -> (r: String)
    ensures
        r@ == first_written(texts(all@)),
{
    let ghost views = texts(all@);
    let mut i: usize = 0;
    assert(views.skip(0) =~= views);
    while i < all.len()
        invariant
            i <= all@.len(),
            views == texts(all@),
            first_written(views) == first_written(views.skip(i as int)),
        decreases all@.len() - i,
    {
        assert(views.skip(i as int)[0] == all@[i as int]@);
        assert(views.skip(i as int).skip(1) =~= views.skip(i + 1));
        if !trimmed(all[i].as_str()).as_str().is_empty() {
            return all[i].clone();
        }
        i = i + 1;
    }
    String::new()
}

pub fn is_reference_position(position: &Position) -> (r: bool)
    ensures
        r == reference_position(position@),
{
    let mut all = split_lines(position.short_text.as_str());
    let mut more = split_lines(position.long_text.as_str());
    let ghost a = texts(all@);
    let ghost b = texts(more@);
    all.append(&mut more);
    assert(texts(all@) =~= a + b);
    is_reference_text(first_line(&all).as_str())
}

/// The positions that are more than references.
pub open spec fn own_positions(v: Seq<PositionView>) -> Seq<PositionView>
    decreases v.len(),
{
    if v.len() == 0 {
        seq![]
    } else if reference_position(v.last()) {
        own_positions(v.drop_last())
    } else {
        own_positions(v.drop_last()).push(v.last())
    }
}

/// The tree without positions that only refer to others.
pub open spec fn without_references(nodes: Seq<NodeView>) -> Seq<NodeView>
    decreases nodes,
{
    if nodes.len() == 0 {
        seq![]
    } else {
        let node = nodes.last();
        without_references(nodes.drop_last()).push(
            NodeView {
                children: without_references(node.children),
                positions: own_positions(node.positions),
                ..node
            },
        )
    }
}

fn keep_own(v: &Vec<Position>) -> (r: Vec<Position>)
    ensures
        position_views(r@) == own_positions(position_views(v@)),
{
    broadcast use group_model_views;
    let ghost all = position_views(v@);
    let mut r: Vec<Position> = Vec::new();
    let mut i: usize = 0;
    assert(position_views(r@) =~= own_positions(all.take(0)));
    while i < v.len()
        invariant
            i <= v@.len(),
            all == position_views(v@),
            position_views(r@) == own_positions(all.take(i as int)),
        decreases v@.len() - i,
    {
        broadcast use group_model_views;
        assert(all.take(i + 1).drop_last() =~= all.take(i as int));
        assert(all.take(i + 1).last() == v@[i as int]@);
        if !is_reference_position(&v[i]) {
            r.push(v[i].clone());
        }
        i = i + 1;
    }
    assert(all.take(v@.len() as int) =~= all);
    r
}

pub fn remove_reference_positions(nodes: &mut Vec<Node>)
    ensures
        node_views(final(nodes)@) == without_references(node_views(old(nodes)@)),
    decreases *old(nodes),
{
    broadcast use group_model_views;
    let ghost all = node_views(nodes@);
    let ghost start = *nodes;
    let len: usize = nodes.len();
    let mut i: usize = 0;
    while i < len
        invariant
            i <= len == nodes@.len() == all.len(),
            all == node_views(start@),
            start == *old(nodes),
            start@.len() == len,
            node_views(nodes@).take(i as int) == without_references(all.take(i as int)),
            forall|j: int| i <= j < len ==> nodes@[j] == start@[j],
        decreases len - i,
    {
        broadcast use group_model_views;
        let ghost here = node_views(nodes@);
        let mut node = Node::default();
        std::mem::swap(&mut node, &mut nodes[i]);
        assert(node == start@[i as int]);
        let ghost before = node@;
        assert(before == all[i as int]);
        assert(decreases_to!(start => start@[i as int].children));
        remove_reference_positions(&mut node.children);
        node.positions = keep_own(&node.positions);
        let ghost after = node@;
        assert(all.take(i + 1).drop_last() =~= all.take(i as int));
        assert(all.take(i + 1).last() == before);
        nodes.set(i, node);
        assert(node_views(nodes@) =~= here.update(i as int, after));
        assert(node_views(nodes@).take(i + 1) =~= here.take(i as int).push(after));
        i = i + 1;
    }
    assert(all.take(len as int) =~= all);
    assert(node_views(nodes@).take(len as int) =~= node_views(nodes@));
}

/// Whether a text could be part of a price line.
pub open spec fn price_line(value: Seq<char>) -> bool {
    ||| lower(value).contains('€')
    ||| contains(lower(value), "nur einh.-pr."@)
    ||| is_matched(QUANTITY_AND_UNIT@, trim(value))
}

pub fn is_price_line(value: &str) -> (r: bool)
    ensures
        r == price_line(value@),
{
    let small = lowered(value);
    has_char(small.as_str(), '€') || has(small.as_str(), "nur einh.-pr.") || Pattern::new(
        QUANTITY_AND_UNIT,
    ).matches(trimmed(value).as_str())
}

/// A text with its white space made single blanks: it has the words that it had, no white
/// space at its ends, and stays as it is when that is done again.
pub fn normalize(value: &str) -> (r: String)
    ensures
        r@ == single_spaced(value@),
        words(r@) == words(value@),
        tidy(r@),
        single_spaced(r@) == r@,
{
    proof {
        law_single_spaced(value@);
    }
    normalize_line(value)
}

/// Whether a line belongs to the page and not to a position.
pub open spec fn layout_noise(value: Seq<char>) -> bool {
    ||| trim(value) == "Fortsetzung von vorheriger Seite"@
    ||| trim(value) == "Fortsetzung auf nächster Seite"@
    ||| trim(value) == "Eventualposition ohne GB"@
    ||| "OZ Menge / Einheit"@.is_prefix_of(value)
}

pub fn is_layout_noise(value: &str) -> (r: bool)
    ensures
        r == layout_noise(value@),
{
    let t = trimmed(value);
    same(t.as_str(), "Fortsetzung von vorheriger Seite") || same(
        t.as_str(),
        "Fortsetzung auf nächster Seite",
    ) || same(t.as_str(), "Eventualposition ohne GB") || starts_with(value, "OZ Menge / Einheit")
}

/// Whether a text could be part of a short text.
pub open spec fn short_text_candidate(value: Seq<char>) -> bool {
    &&& trim(value).len() > 0
    &&& !reference_text(value)
    &&& !price_line(value)
    &&& !layout_noise(value)
}

pub fn is_short_text_candidate(value: &str) -> (r: bool)
    ensures
        r == short_text_candidate(value@),
{
    !trimmed(value).as_str().is_empty() && !is_reference_text(value) && !is_price_line(value)
        && !is_layout_noise(value)
}

/// The fonts that are bold, by their family.
pub open spec fn bold_family(family: Seq<char>) -> bool {
    ||| contains(lower(family), "bold"@)
    ||| contains(lower(family), "semibold"@)
    ||| contains(lower(family), "demi"@)
    ||| contains(lower(family), "black"@)
    ||| contains(lower(family), "heavy"@)
}

/// The marks of the bold fonts.
pub open spec fn bold_fonts_in(found: Seq<Seq<Option<FoundView>>>) -> Seq<Seq<char>>
    decreases found.len(),
{
    if found.len() == 0 {
        seq![]
    } else {
        let before = bold_fonts_in(found.drop_last());
        let attrs = group_text(found.last(), 1);
        let family = match attr_value(attrs, "family"@) {
            Some(family) => family,
            None => seq![],
        };
        match attr_value(attrs, "id"@) {
            Some(id) => if bold_family(family) {
                before.push(id)
            } else {
                before
            },
            None => before,
        }
    }
}

fn bold_fonts(layout: &str) -> (r: Vec<String>)
    ensures
        texts(r@) == bold_fonts_in(all_matches(LAYOUT_FONT@, layout@)),
{
    found_bold_fonts(&Pattern::new(LAYOUT_FONT).all(layout))
}

/// The bold fonts among those that were found.
pub fn found_bold_fonts(found: &Vec<Vec<Option<Found>>>) -> (r: Vec<String>)
    ensures
        texts(r@) == bold_fonts_in(all_groups(found@)),
{
    broadcast use lemma_texts_push;
    let ghost all = all_groups(found@);
    let mut r: Vec<String> = Vec::new();
    let mut i: usize = 0;
    assert(texts(r@) =~= bold_fonts_in(all.take(0)));
    while i < found.len()
        invariant
            i <= found@.len(),
            all == all_groups(found@),
            texts(r@) == bold_fonts_in(all.take(i as int)),
        decreases found@.len() - i,
    {
        broadcast use lemma_texts_push;
        assert(all.take(i + 1).drop_last() =~= all.take(i as int));
        assert(all.take(i + 1).last() == groups(found@[i as int]@));
        let attrs = captured_text(&found[i], 1);
        if let Some(id) = attr(attrs.as_str(), "id") {
            let family = match attr(attrs.as_str(), "family") {
                Some(family) => family,
                None => String::new(),
            };
            let family = lowered(family.as_str());
            let family = family.as_str();
            if has(family, "bold") || has(family, "semibold") || has(family, "demi") || has(
                family,
                "black",
            ) || has(family, "heavy") {
                r.push(id);
            }
        }
        i = i + 1;
    }
    assert(all.take(found@.len() as int) =~= all);
    r
}

/// What a piece of text with its place is.
#[verifier::ext_equal]
pub struct TextFragmentView {
    pub top: int,
    pub left: int,
    pub bold: bool,
    pub text: Seq<char>,
}

/// A piece of text with its place.
#[derive(Default)]
pub struct TextFragment {
    pub top: i32,
    pub left: i32,
    pub bold: bool,
    pub text: String,
}

impl View for TextFragment {
    type V = TextFragmentView;

    open spec fn view(&self) -> TextFragmentView {
        TextFragmentView {
            top: self.top as int,
            left: self.left as int,
            bold: self.bold,
            text: self.text@,
        }
    }
}

pub open spec fn text_fragment_views(v: Seq<TextFragment>) -> Seq<TextFragmentView> {
    Seq::new(v.len(), |i: int| v[i]@)
}

/// The texts that say something, with the mark whether they are bold.
pub open spec fn marked(v: Seq<FragmentView>, bold: Seq<Seq<char>>) -> Seq<TextFragmentView>
    decreases v.len(),
{
    if v.len() == 0 {
        seq![]
    } else {
        let before = marked(v.drop_last(), bold);
        let f = v.last();
        let text = single_spaced(f.text);
        if text.len() == 0 {
            before
        } else {
            before.push(
                TextFragmentView { top: f.top, left: f.left, bold: bold.contains(f.font), text },
            )
        }
    }
}

fn mark_bold(v: &Vec<Fragment>, bold: &Vec<String>) -> (r: Vec<TextFragment>)
    ensures
        text_fragment_views(r@) == marked(fragment_views(v@), texts(bold@)),
{
    let ghost all = fragment_views(v@);
    let mut r: Vec<TextFragment> = Vec::new();
    let mut i: usize = 0;
    assert(text_fragment_views(r@) =~= marked(all.take(0), texts(bold@)));
    while i < v.len()
        invariant
            i <= v@.len(),
            all == fragment_views(v@),
            text_fragment_views(r@) == marked(all.take(i as int), texts(bold@)),
        decreases v@.len() - i,
    {
        assert(all.take(i + 1).drop_last() =~= all.take(i as int));
        assert(all.take(i + 1).last() == v@[i as int]@);
        let ghost before = text_fragment_views(r@);
        let text = normalize(v[i].text.as_str());
        if !text.as_str().is_empty() {
            let next = TextFragment {
                top: v[i].top,
                left: v[i].left,
                bold: listed(bold.as_slice(), v[i].font.as_str()),
                text,
            };
            let ghost added = next@;
            r.push(next);
            assert(text_fragment_views(r@) =~= before.push(added));
        }
        i = i + 1;
    }
    assert(all.take(v@.len() as int) =~= all);
    r
}

/// What a line of a page is.
#[verifier::ext_equal]
pub struct LayoutLineView {
    pub top: int,
    pub bold: bool,
    pub text: Seq<char>,
}

/// A line of a page.
pub struct LayoutLine {
    pub top: i32,
    pub bold: bool,
    pub text: String,
}

impl View for LayoutLine {
    type V = LayoutLineView;

    open spec fn view(&self) -> LayoutLineView {
        LayoutLineView { top: self.top as int, bold: self.bold, text: self.text@ }
    }
}

pub open spec fn line_views(v: Seq<LayoutLine>) -> Seq<LayoutLineView> {
    Seq::new(v.len(), |i: int| v[i]@)
}

pub open spec fn fragment_keys(v: Seq<TextFragmentView>) -> Seq<Seq<int>> {
    Seq::new(v.len(), |i: int| seq![v[i].top, v[i].left])
}

/// The lines after one more text: it continues the last line if it stands at most two
/// units away from it.
pub open spec fn with_fragment(v: Seq<LayoutLineView>, f: TextFragmentView) -> Seq<LayoutLineView> {
    if v.len() > 0 && -2 <= v.last().top - f.top <= 2 {
        let line = v.last();
        v.drop_last().push(
            LayoutLineView {
                text: if line.text.len() == 0 {
                    f.text
                } else {
                    line.text + " "@ + f.text
                },
                bold: line.bold || f.bold,
                ..line
            },
        )
    } else {
        v.push(LayoutLineView { top: f.top, bold: f.bold, text: f.text })
    }
}

/// The lines of the first `n` texts.
pub open spec fn lines_until(v: Seq<TextFragmentView>, n: nat) -> Seq<LayoutLineView>
    decreases n,
{
    if n == 0 {
        seq![]
    } else {
        with_fragment(lines_until(v, (n - 1) as nat), v[n - 1])
    }
}

/// The lines that the texts of a page form, from top to bottom and left to right.
pub open spec fn lines_of_page(v: Seq<TextFragmentView>) -> Seq<LayoutLineView> {
    let joined = lines_until(arranged(v, fragment_keys(v)), v.len());
    Seq::new(
        joined.len(),
        |i: int| LayoutLineView { text: single_spaced(joined[i].text), ..joined[i] },
    )
}

fn add_fragment(lines: &mut Vec<LayoutLine>, f: &TextFragment)
    ensures
        line_views(final(lines)@) == with_fragment(line_views(old(lines)@), f@),
{
    let ghost before = line_views(lines@);
    assert(lines@.len() == before.len());
    if lines.len() > 0 {
        let n: usize = lines.len() - 1;
        assert(before.last() == lines@[n as int]@);
        let gap: i64 = lines[n].top as i64 - f.top as i64;
        if -2 <= gap && gap <= 2 {
            let text = if lines[n].text.as_str().is_empty() {
                f.text.clone()
            } else {
                lines[n].text.clone().concat(" ").concat(f.text.as_str())
            };
            let line = LayoutLine { top: lines[n].top, bold: lines[n].bold || f.bold, text };
            let ghost changed = line@;
            lines.set(n, line);
            assert(line_views(lines@) =~= before.drop_last().push(changed));
            return;
        }
    }
    let line = LayoutLine { top: f.top, bold: f.bold, text: f.text.clone() };
    let ghost added = line@;
    lines.push(line);
    assert(line_views(lines@) =~= before.push(added));
}

pub fn group_lines(fragments: Vec<TextFragment>) -> (r: Vec<LayoutLine>)
    ensures
        line_views(r@) == lines_of_page(text_fragment_views(fragments@)),
{
    let ghost all = text_fragment_views(fragments@);
    let mut keys: Vec<Vec<i128>> = Vec::new();
    let mut i: usize = 0;
    while i < fragments.len()
        invariant
            i <= fragments@.len(),
            keys@.len() == i,
            all == text_fragment_views(fragments@),
            forall|j: int|
                0 <= j < i ==> key_of((#[trigger] keys@[j])@) == seq![all[j].top, all[j].left],
        decreases fragments@.len() - i,
    {
        let mut key: Vec<i128> = Vec::new();
        key.push(fragments[i].top as i128);
        key.push(fragments[i].left as i128);
        assert(key_of(key@) =~= seq![all[i as int].top, all[i as int].left]);
        keys.push(key);
        i = i + 1;
    }
    assert(keys_of(keys@) =~= fragment_keys(all));
    proof {
        law_ranking(keys_of(keys@), fragments@.len());
    }
    let sorted = arrange(fragments, &keys);
    let ghost views = arranged(all, fragment_keys(all));
    assert(text_fragment_views(sorted@) =~= views);
    let mut joined: Vec<LayoutLine> = Vec::new();
    i = 0;
    assert(line_views(joined@) =~= lines_until(views, 0));
    while i < sorted.len()
        invariant
            i <= sorted@.len(),
            views == text_fragment_views(sorted@),
            line_views(joined@) == lines_until(views, i as nat),
        decreases sorted@.len() - i,
    {
        assert(views[i as int] == sorted@[i as int]@);
        add_fragment(&mut joined, &sorted[i]);
        i = i + 1;
    }
    let ghost whole = line_views(joined@);
    let mut r: Vec<LayoutLine> = Vec::new();
    i = 0;
    while i < joined.len()
        invariant
            i <= joined@.len(),
            whole == line_views(joined@),
            r@.len() == i,
            forall|j: int|
                0 <= j < i ==> (#[trigger] r@[j])@ == (LayoutLineView {
                    text: single_spaced(whole[j].text),
                    ..whole[j]
                }),
        decreases joined@.len() - i,
    {
        assert(whole[i as int] == joined@[i as int]@);
        let line = LayoutLine {
            top: joined[i].top,
            bold: joined[i].bold,
            text: normalize(joined[i].text.as_str()),
        };
        r.push(line);
        i = i + 1;
    }
    assert(line_views(r@) =~= lines_of_page(all));
    r
}

/// What a short text that was found is.
#[verifier::ext_equal]
pub struct ShortTextView {
    pub oz: Seq<char>,
    pub page: nat,
    pub text: Seq<char>,
}

struct ShortText {
    oz: String,
    page: usize,
    text: String,
}

impl ShortText {
    spec fn state(self) -> ShortTextView {
        ShortTextView { oz: self.oz@, page: self.page as nat, text: self.text@ }
    }
}

/// The short texts that were found, by ordinal number and page.
pub struct ShortTexts {
    found: Vec<ShortText>,
}

impl View for ShortTexts {
    type V = Seq<ShortTextView>;

    closed spec fn view(&self) -> Seq<ShortTextView> {
        Seq::new(self.found@.len(), |i: int| self.found@[i].state())
    }
}

/// The index of the first short text of a position on a page, or their number.
pub open spec fn short_index(v: Seq<ShortTextView>, oz: Seq<char>, page: nat) -> nat
    decreases v.len(),
{
    if v.len() == 0 || (v[0].oz == oz && v[0].page == page) {
        0
    } else {
        1 + short_index(v.skip(1), oz, page)
    }
}

/// The short text of a position on a page.
pub open spec fn short_for(v: Seq<ShortTextView>, oz: Seq<char>, page: nat) -> Option<Seq<char>> {
    let n = short_index(v, oz, page);
    if n < v.len() {
        Some(v[n as int].text)
    } else {
        None
    }
}

/// The short texts with one more; of two for the same position the one with more lines
/// counts, and of equally long ones the first.
pub open spec fn noted(
    v: Seq<ShortTextView>,
    oz: Seq<char>,
    page: nat,
    text: Seq<char>,
) -> Seq<ShortTextView> {
    let n = short_index(v, oz, page) as int;
    if n >= v.len() {
        v.push(ShortTextView { oz, page, text })
    } else if lines(text).len() > lines(v[n].text).len() {
        v.update(n, ShortTextView { oz, page, text })
    } else {
        v
    }
}

proof fn lemma_short_index(v: Seq<ShortTextView>, oz: Seq<char>, page: nat, n: int)
    requires
        0 <= n <= v.len(),
        forall|i: int|
            0 <= i < n ==> !((#[trigger] v[i]).oz == oz && v[i].page == page),
        n < v.len() ==> v[n].oz == oz && v[n].page == page,
    ensures
        short_index(v, oz, page) == n,
    decreases v.len(),
{
    if n > 0 {
        assert forall|i: int| 0 <= i < n - 1 implies !((#[trigger] v.skip(1)[i]).oz == oz && v.skip(
            1,
        )[i].page == page) by {
            assert(v.skip(1)[i] == v[i + 1]);
        }
        if n < v.len() {
            assert(v.skip(1)[n - 1] == v[n]);
        }
        lemma_short_index(v.skip(1), oz, page, n - 1);
    }
}

impl ShortTexts {
    fn new() -> (r: ShortTexts)
        ensures
            r@ == Seq::<ShortTextView>::empty(),
    {
        let r = ShortTexts { found: Vec::new() };
        assert(r@ =~= Seq::empty());
        r
    }

    fn index(&self, oz: &str, page: usize) -> (r: usize)
        ensures
            r == short_index(self@, oz@, page as nat),
            r <= self.found@.len() == self@.len(),
    {
        let mut i: usize = 0;
        while i < self.found.len()
            invariant
                i <= self.found@.len() == self@.len(),
                forall|j: int|
                    0 <= j < i ==> !((#[trigger] self@[j]).oz == oz@ && self@[j].page == page),
            decreases self.found@.len() - i,
        {
            assert(self@[i as int] == self.found@[i as int].state());
            if self.found[i].page == page && same(self.found[i].oz.as_str(), oz) {
                proof {
                    lemma_short_index(self@, oz@, page as nat, i as int);
                }
                return i;
            }
            i = i + 1;
        }
        proof {
            lemma_short_index(self@, oz@, page as nat, i as int);
        }
        i
    }

    fn note(&mut self, oz: String, page: usize, text: String)
        ensures
            final(self)@ == noted(old(self)@, oz@, page as nat, text@),
    {
        let ghost before = self@;
        let n = self.index(oz.as_str(), page);
        if n == self.found.len() {
            let next = ShortText { oz, page, text };
            let ghost added = next.state();
            self.found.push(next);
            assert(self@ =~= before.push(added));
        } else {
            assert(before[n as int] == self.found@[n as int].state());
            let known = split_lines(self.found[n].text.as_str());
            let lines_of = split_lines(text.as_str());
            assert(known@.len() == texts(known@).len());
            assert(lines_of@.len() == texts(lines_of@).len());
            if lines_of.len() > known.len() {
                let next = ShortText { oz, page, text };
                let ghost changed = next.state();
                self.found.set(n, next);
                assert(self@ =~= before.update(n as int, changed));
            }
        }
    }

    /// The short text of a position on a page.
    pub fn get(&self, oz: &str, page: usize) -> (r: Option<&str>)
        ensures
            (match r {
                Some(text) => short_for(self@, oz@, page as nat) == Some(text@),
                None => short_for(self@, oz@, page as nat) is None,
            }),
    {
        let n = self.index(oz, page);
        if n < self.found.len() {
            assert(self@[n as int] == self.found@[n as int].state());
            Some(self.found[n].text.as_str())
        } else {
            None
        }
    }

    pub fn len(&self) -> (r: usize)
        ensures
            r == self@.len(),
    {
        self.found.len()
    }
}

/// What a line of a page is to the short text above it.
#[derive(Debug, Clone, Copy, PartialEq, Eq, Structural)]
pub enum LineRole {
    /// It starts another position or heading.
    Number,
    /// It belongs to the page.
    Noise,
    /// It is bold and could be part of the short text.
    Part,
    Other,
}

pub open spec fn role_of(line: LayoutLineView) -> LineRole {
    if is_matched(OZ_AND_REST@, line.text) || is_matched(HEADING_NUMBER@, line.text) {
        LineRole::Number
    } else if layout_noise(line.text) {
        LineRole::Noise
    } else if !price_line(line.text) && line.bold && short_text_candidate(line.text) {
        LineRole::Part
    } else {
        LineRole::Other
    }
}

pub open spec fn roles_of(all: Seq<LayoutLineView>) -> Seq<LineRole> {
    all.map_values(|line: LayoutLineView| role_of(line))
}

/// A short text with what the lines from `i` on add to it, of which at most `left` are
/// looked at. It ends before another number, and once begun before a line that is not
/// bold.
pub open spec fn with_bold_lines(
    all: Seq<LayoutLineView>,
    roles: Seq<LineRole>,
    i: nat,
    left: nat,
    short: Seq<Seq<char>>,
) -> Seq<Seq<char>>
    decreases left,
{
    if left == 0 || i >= all.len() {
        short
    } else {
        match roles[i as int] {
            LineRole::Number => short,
            LineRole::Noise => with_bold_lines(all, roles, i + 1, (left - 1) as nat, short),
            LineRole::Part => with_bold_lines(
                all,
                roles,
                i + 1,
                (left - 1) as nat,
                short.push(all[i as int].text),
            ),
            LineRole::Other => if short.len() > 0 {
                short
            } else {
                with_bold_lines(all, roles, i + 1, (left - 1) as nat, short)
            },
        }
    }
}

/// The lines of the short text of the position that starts in line `i`, if one does.
pub open spec fn short_lines_at(all: Seq<LayoutLineView>, i: nat) -> Option<(Seq<char>, Seq<Seq<char>>)> {
    let line = all[i as int];
    match first_match(OZ_AND_REST@, line.text) {
        None => None,
        Some(g) => {
            let rest = group_text(g, 2);
            if reference_text(rest) {
                None
            } else {
                let start = if line.bold && short_text_candidate(rest) {
                    seq![rest]
                } else {
                    seq![]
                };
                Some((group_text(g, 1), with_bold_lines(all, roles_of(all), i + 1, 14, start)))
            }
        },
    }
}

/// The short texts after the first `n` lines of a page.
pub open spec fn shorts_of_lines(
    v: Seq<ShortTextView>,
    page: nat,
    all: Seq<LayoutLineView>,
    n: nat,
) -> Seq<ShortTextView>
    decreases n,
{
    if n == 0 {
        v
    } else {
        let before = shorts_of_lines(v, page, all, (n - 1) as nat);
        match short_lines_at(all, (n - 1) as nat) {
            None => before,
            Some((oz, short)) => if short.len() == 0 {
                before
            } else {
                noted(before, oz, page, join(short, "\n"@))
            },
        }
    }
}

/// The short texts of the first `n` pages.
pub open spec fn shorts_of_pages(pages: Seq<PageView>, bold: Seq<Seq<char>>, n: nat) -> Seq<
    ShortTextView,
>
    decreases n,
{
    if n == 0 {
        seq![]
    } else {
        let page = pages[n - 1];
        let all = lines_of_page(marked(fragments_of(page.body), bold));
        shorts_of_lines(shorts_of_pages(pages, bold, (n - 1) as nat), page.number, all, all.len())
    }
}

/// The bold short texts of a page layout.
pub open spec fn bold_short_texts(layout: Seq<char>) -> Seq<ShortTextView> {
    let bold = bold_fonts_in(all_matches(LAYOUT_FONT@, layout));
    let pages = pages_of(layout);
    shorts_of_pages(pages, bold, pages.len())
}

/// The roles of the lines of a page.
pub fn line_roles(all: &Vec<LayoutLine>) -> (r: Vec<LineRole>)
    ensures
        r@ == roles_of(line_views(all@)),
{
    let position = Pattern::new(OZ_AND_REST);
    let heading = Pattern::new(HEADING_NUMBER);
    let ghost views = line_views(all@);
    let mut roles: Vec<LineRole> = Vec::new();
    let mut i: usize = 0;
    while i < all.len()
        invariant
            i <= all@.len() == views.len(),
            views == line_views(all@),
            position@ == OZ_AND_REST@,
            heading@ == HEADING_NUMBER@,
            roles@ == roles_of(views).take(i as int),
        decreases all@.len() - i,
    {
        assert(views[i as int] == all@[i as int]@);
        let text = all[i].text.as_str();
        let role = if position.matches(text) || heading.matches(text) {
            LineRole::Number
        } else if is_layout_noise(text) {
            LineRole::Noise
        } else if !is_price_line(text) && all[i].bold && is_short_text_candidate(text) {
            LineRole::Part
        } else {
            LineRole::Other
        };
        roles.push(role);
        assert(roles@ =~= roles_of(views).take(i as int + 1));
        i = i + 1;
    }
    assert(roles@ =~= roles_of(views));
    roles
}

/// Adds to a short text what the lines from `from` on have of it.
pub fn continue_short(
    all: &Vec<LayoutLine>,
    roles: &Vec<LineRole>,
    from: usize,
    short: &mut Vec<String>,
)
    requires
        roles@.len() == all@.len(),
    ensures
        texts(final(short)@) == with_bold_lines(
            line_views(all@),
            roles@,
            from as nat,
            14,
            texts(old(short)@),
        ),
{
    broadcast use lemma_texts_push;
    let ghost views = line_views(all@);
    let ghost result = with_bold_lines(views, roles@, from as nat, 14, texts(short@));
    let mut i: usize = from;
    let mut left: usize = 14;
    while left > 0 && i < all.len()
        invariant
            roles@.len() == all@.len(),
            views == line_views(all@),
            result == with_bold_lines(views, roles@, i as nat, left as nat, texts(short@)),
        ensures
            texts(short@) == result,
        decreases left,
    {
        broadcast use lemma_texts_push;
        assert(views[i as int] == all@[i as int]@);
        assert(short@.len() == texts(short@).len());
        match roles[i] {
            LineRole::Number => {
                break;
            },
            LineRole::Noise => {},
            LineRole::Part => {
                short.push(all[i].text.clone());
            },
            LineRole::Other => {
                if short.len() > 0 {
                    break;
                }
            },
        }
        i = i + 1;
        left = left - 1;
    }
}

fn note_line(
    shorts: &mut ShortTexts,
    page: usize,
    all: &Vec<LayoutLine>,
    roles: &Vec<LineRole>,
    i: usize,
    position: &Pattern,
)
    requires
        i < all@.len(),
        position@ == OZ_AND_REST@,
        roles@ == roles_of(line_views(all@)),
    ensures
        final(shorts)@ == (match short_lines_at(line_views(all@), i as nat) {
            None => old(shorts)@,
            Some((oz, short)) => if short.len() == 0 {
                old(shorts)@
            } else {
                noted(old(shorts)@, oz, page as nat, join(short, "\n"@))
            },
        }),
{
    broadcast use lemma_texts_push;
    assert(line_views(all@)[i as int] == all@[i as int]@);
    let count: usize = all.len();
    assert(i + 1 <= count);
    if let Some(caps) = position.first(all[i].text.as_str()) {
        let rest = captured_text(&caps, 2);
        if !is_reference_text(rest.as_str()) {
            let mut short: Vec<String> = Vec::new();
            if all[i].bold && is_short_text_candidate(rest.as_str()) {
                short.push(rest.clone());
                assert(texts(short@) =~= seq![rest@]);
            } else {
                assert(texts(short@) =~= seq![]);
            }
            continue_short(all, roles, i + 1, &mut short);
            assert(short@.len() == texts(short@).len());
            if short.len() > 0 {
                shorts.note(captured_text(&caps, 1), page, joined(short.as_slice(), "\n"));
            }
        }
    }
}

fn note_page(
    shorts: &mut ShortTexts,
    page: usize,
    all: &Vec<LayoutLine>,
    position: &Pattern,
)
    requires
        position@ == OZ_AND_REST@,
    ensures
        final(shorts)@ == shorts_of_lines(
            old(shorts)@,
            page as nat,
            line_views(all@),
            all@.len(),
        ),
{
    let ghost start = shorts@;
    let roles = line_roles(all);
    let mut i: usize = 0;
    while i < all.len()
        invariant
            i <= all@.len(),
            position@ == OZ_AND_REST@,
            roles@ == roles_of(line_views(all@)),
            shorts@ == shorts_of_lines(start, page as nat, line_views(all@), i as nat),
        decreases all@.len() - i,
    {
        note_line(shorts, page, all, &roles, i, position);
        i = i + 1;
    }
}

/// The short texts in bold type of a page layout.
pub fn parse_bold_short_texts(layout: &str) -> (r: Result<ShortTexts, Error>)
    ensures
        r is Ok,
        r->Ok_0@ == bold_short_texts(layout@),
{
    let position = Pattern::new(OZ_AND_REST);
    let bold = bold_fonts(layout);
    let pages = layout_pages(layout);
    let ghost views = pages_of(layout@);
    assert(pages@.len() == page_views(pages@).len());
    let mut shorts = ShortTexts::new();
    let mut i: usize = 0;
    while i < pages.len()
        invariant
            i <= pages@.len() == views.len(),
            views == page_views(pages@),
            position@ == OZ_AND_REST@,
            shorts@ == shorts_of_pages(views, texts(bold@), i as nat),
        decreases pages@.len() - i,
    {
        assert(views[i as int] == pages@[i as int]@);
        let fragments = page_fragments(pages[i].body.as_str());
        let all = group_lines(mark_bold(&fragments, &bold));
        assert(line_views(all@).len() == all@.len());
        note_page(&mut shorts, pages[i].number, &all, &position);
        i = i + 1;
    }
    Ok(shorts)
}

/// How many lines at the start of a long text repeat those of a short text behind its
/// first line.
pub open spec fn repeated_lines(short: Seq<Seq<char>>, long: Seq<Seq<char>>, n: nat) -> nat
    decreases long.len() - n,
{
    if n + 1 < short.len() && n < long.len() && single_spaced(long[n as int]) == single_spaced(
        short[n as int + 1],
    ) {
        repeated_lines(short, long, n + 1)
    } else {
        n
    }
}

/// A position with a short text from the layout.
pub open spec fn with_short_text(p: PositionView, short: Seq<char>) -> PositionView {
    let n = repeated_lines(lines(short), lines(p.long_text), 0);
    PositionView {
        short_text: short,
        long_text: if n == 0 {
            p.long_text
        } else {
            trim(join(lines(p.long_text).skip(n as int), "\n"@))
        },
        ..p
    }
}

/// A position with the short text that the layout gives for it, if it does.
pub open spec fn shortened(p: PositionView, shorts: Seq<ShortTextView>) -> PositionView {
    let page = match p.page_from {
        Some(page) => page as nat,
        None => 0,
    };
    match short_for(shorts, p.oz, page) {
        Some(short) => with_short_text(p, short),
        None => p,
    }
}

/// The tree with the short texts that the layout gives.
pub open spec fn with_short_texts(nodes: Seq<NodeView>, shorts: Seq<ShortTextView>) -> Seq<NodeView>
    decreases nodes,
{
    if nodes.len() == 0 {
        seq![]
    } else {
        let node = nodes.last();
        with_short_texts(nodes.drop_last(), shorts).push(
            NodeView {
                children: with_short_texts(node.children, shorts),
                positions: Seq::new(
                    node.positions.len(),
                    |i: int| shortened(node.positions[i], shorts),
                ),
                ..node
            },
        )
    }
}

fn set_short_text(position: &mut Position, short: &str)
    ensures
        final(position)@ == with_short_text(old(position)@, short@),
{
    let a = split_lines(short);
    let b = split_lines(position.long_text.as_str());
    let ghost x = lines(short@);
    let ghost y = lines(position.long_text@);
    assert(a@.len() == texts(a@).len());
    assert(b@.len() == texts(b@).len());
    let mut n: usize = 0;
    let mut going = true;
    while going
        invariant
            texts(a@) == x,
            texts(b@) == y,
            a@.len() == x.len(),
            b@.len() == y.len(),
            n <= b@.len(),
            repeated_lines(x, y, 0) == repeated_lines(x, y, n as nat),
            !going ==> repeated_lines(x, y, n as nat) == n,
        decreases b@.len() - n, (if going { 1int } else { 0int }),
    {
        if n < b.len() && n < a.len() && n + 1 < a.len() {
            assert(x[n + 1] == a@[n + 1]@);
            assert(y[n as int] == b@[n as int]@);
            let left = normalize(b[n].as_str());
            let right = normalize(a[n + 1].as_str());
            if same(left.as_str(), right.as_str()) {
                n = n + 1;
            } else {
                going = false;
            }
        } else {
            going = false;
        }
    }
    if n > 0 {
        let rest = vstd::slice::slice_subrange(b.as_slice(), n, b.len());
        assert(texts(rest@) =~= y.skip(n as int));
        position.long_text = trimmed(joined(rest, "\n").as_str());
    }
    position.short_text = short.to_owned();
}

fn shorten_all(v: &mut Vec<Position>, shorts: &ShortTexts)
    ensures
        position_views(final(v)@) == Seq::new(
            old(v)@.len(),
            |i: int| shortened(position_views(old(v)@)[i], shorts@),
        ),
{
    broadcast use group_model_views;
    let ghost start = v@;
    let len: usize = v.len();
    let mut i: usize = 0;
    while i < len
        invariant
            i <= len == v@.len() == start.len(),
            forall|j: int| 0 <= j < i ==> (#[trigger] v@[j])@ == shortened(start[j]@, shorts@),
            forall|j: int| i <= j < len ==> v@[j] == start[j],
        decreases len - i,
    {
        let mut position = Position::default();
        std::mem::swap(&mut position, &mut v[i]);
        let page: usize = match position.page_from {
            Some(page) => page,
            None => 0,
        };
        let short = match shorts.get(position.oz.as_str(), page) {
            Some(short) => Some(short.to_owned()),
            None => None,
        };
        if let Some(short) = short {
            set_short_text(&mut position, short.as_str());
        }
        v.set(i, position);
        i = i + 1;
    }
}

pub fn apply_bold_short_texts(nodes: &mut Vec<Node>, short_texts: &ShortTexts)
    ensures
        node_views(final(nodes)@) == with_short_texts(node_views(old(nodes)@), short_texts@),
    decreases *old(nodes),
{
    broadcast use group_model_views;
    let ghost all = node_views(nodes@);
    let ghost start = *nodes;
    let len: usize = nodes.len();
    let mut i: usize = 0;
    while i < len
        invariant
            i <= len == nodes@.len() == all.len(),
            all == node_views(start@),
            start == *old(nodes),
            start@.len() == len,
            node_views(nodes@).take(i as int) == with_short_texts(
                all.take(i as int),
                short_texts@,
            ),
            forall|j: int| i <= j < len ==> nodes@[j] == start@[j],
        decreases len - i,
    {
        broadcast use group_model_views;
        let ghost here = node_views(nodes@);
        let mut node = Node::default();
        std::mem::swap(&mut node, &mut nodes[i]);
        assert(node == start@[i as int]);
        let ghost before = node@;
        assert(before == all[i as int]);
        shorten_all(&mut node.positions, short_texts);
        assert(position_views(node.positions@) =~= Seq::new(
            before.positions.len(),
            |j: int| shortened(before.positions[j], short_texts@),
        ));
        assert(decreases_to!(start => start@[i as int].children));
        apply_bold_short_texts(&mut node.children, short_texts);
        let ghost after = node@;
        assert(all.take(i + 1).drop_last() =~= all.take(i as int));
        assert(all.take(i + 1).last() == before);
        nodes.set(i, node);
        assert(node_views(nodes@) =~= here.update(i as int, after));
        assert(node_views(nodes@).take(i + 1) =~= here.take(i as int).push(after));
        i = i + 1;
    }
    assert(all.take(len as int) =~= all);
    assert(node_views(nodes@).take(len as int) =~= node_views(nodes@));
}

/// Whether two positions have this ordinal number.
pub open spec fn numbered_twice(v: Seq<PositionView>, oz: Seq<char>) -> bool {
    exists|i: int, j: int|
        0 <= i < j < v.len() && (#[trigger] v[i]).oz == oz && (#[trigger] v[j]).oz == oz
}

pub fn is_doubled(all: &Vec<&Position>, oz: &str) -> (r: bool)
    ensures
        r == numbered_twice(ref_views(all@), oz@),
{
    let ghost views = ref_views(all@);
    let mut seen = false;
    let ghost mut first: int = 0;
    let mut i: usize = 0;
    while i < all.len()
        invariant
            i <= all@.len() == views.len(),
            views == ref_views(all@),
            seen ==> 0 <= first < i && views[first].oz == oz@,
            forall|j: int| 0 <= j < i && (#[trigger] views[j]).oz == oz@ ==> seen && j == first,
        decreases all@.len() - i,
    {
        assert(views[i as int] == all@[i as int]@);
        if same(all[i].oz.as_str(), oz) {
            if seen {
                assert(views[first].oz == oz@ && views[i as int].oz == oz@);
                return true;
            }
            seen = true;
            proof {
                first = i as int;
            }
        }
        i = i + 1;
    }
    false
}

/// Whether a warning still holds: one of a doubled number does only while the number is
/// doubled.
pub open spec fn still_doubled(warning: Seq<char>, v: Seq<PositionView>) -> bool {
    match behind(warning, "Doppelte OZ: "@) {
        Some(oz) => numbered_twice(v, oz),
        None => true,
    }
}

pub open spec fn warnings_left(w: Seq<Seq<char>>, v: Seq<PositionView>) -> Seq<Seq<char>>
    decreases w.len(),
{
    if w.len() == 0 {
        seq![]
    } else if still_doubled(w.last(), v) {
        warnings_left(w.drop_last(), v).push(w.last())
    } else {
        warnings_left(w.drop_last(), v)
    }
}

fn drop_warnings(warnings: &Vec<String>, all: &Vec<&Position>) -> (r: Vec<String>)
    ensures
        texts(r@) == warnings_left(texts(warnings@), ref_views(all@)),
{
    broadcast use lemma_texts_push;
    let ghost w = texts(warnings@);
    let mut r: Vec<String> = Vec::new();
    let mut i: usize = 0;
    assert(texts(r@) =~= warnings_left(w.take(0), ref_views(all@)));
    while i < warnings.len()
        invariant
            i <= warnings@.len(),
            w == texts(warnings@),
            texts(r@) == warnings_left(w.take(i as int), ref_views(all@)),
        decreases warnings@.len() - i,
    {
        broadcast use lemma_texts_push;
        assert(w.take(i + 1).drop_last() =~= w.take(i as int));
        assert(w.take(i + 1).last() == warnings@[i as int]@);
        let keep = match strip_prefix(warnings[i].as_str(), "Doppelte OZ: ") {
            Some(oz) => is_doubled(all, oz.as_str()),
            None => true,
        };
        if keep {
            r.push(warnings[i].clone());
        }
        i = i + 1;
    }
    assert(w.take(warnings@.len() as int) =~= w);
    r
}

/// The bill after the repairs by its page layout, or by what is said where there is none.
pub open spec fn postprocessed(boq: BoqView, layout: Result<Seq<char>, Seq<char>>) -> BoqView {
    let roots = without_references(boq.roots);
    let repaired = match layout {
        Ok(text) => BoqView { roots: with_short_texts(roots, bold_short_texts(text)), ..boq },
        Err(error) => BoqView {
            roots,
            warnings: boq.warnings.push(
                "Kurztext-Layout konnte nicht ausgewertet werden: "@ + error,
            ),
            ..boq
        },
    };
    BoqView {
        warnings: warnings_left(repaired.warnings, positions_of(repaired.roots)),
        ..repaired
    }
}

pub open spec fn layout_view(layout: Result<String, Error>) -> Result<Seq<char>, Seq<char>> {
    match layout {
        Ok(text) => Ok(text@),
        Err(error) => Err(error@),
    }
}

/// Repairs a bill by the page layout of its document.
pub fn postprocess_pdf(layout: &Result<String, Error>, boq: &mut BillOfQuantities)
    ensures
        final(boq)@ == postprocessed(old(boq)@, layout_view(*layout)),
{
    broadcast use lemma_texts_push;
    remove_reference_positions(&mut boq.roots);
    match layout {
        Ok(text) => {
            if let Ok(shorts) = parse_bold_short_texts(text.as_str()) {
                apply_bold_short_texts(&mut boq.roots, &shorts);
            }
        },
        Err(error) => {
            boq.warnings.push(
                "Kurztext-Layout konnte nicht ausgewertet werden: ".to_owned().concat(
                    error.message.as_str(),
                ),
            );
        },
    }
    let mut warnings: Vec<String> = Vec::new();
    std::mem::swap(&mut warnings, &mut boq.warnings);
    let all = positions(&boq.roots);
    let kept = drop_warnings(&warnings, &all);
    boq.warnings = kept;
}

} // verus!
