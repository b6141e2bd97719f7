//! The page layout of a document: its pages with the texts and images on them.

use crate::gaeb2000::{unescape, unescaped};
use crate::model::opt_text;
use crate::patterns::{
    all_groups, all_matches, captured_text, group_text, groups, with_all_replaced, Found, FoundView,
    Pattern, LAYOUT_PAGE, LAYOUT_TEXT, TAG,
};
use crate::text::{
    chars, find, integer_in, lemma_position_of_found, next_match, next_position, parse_integer,
    parse_size, position_of, replace, replaced, size_in, slice,
};
use vstd::prelude::*;

verus! {

/// What stands in quotation marks behind `opening`, which ends in the mark.
pub open spec fn quoted(attrs: Seq<char>, opening: Seq<char>, mark: char) -> Option<Option<Seq<char>>> {
    match find(attrs, opening) {
        None => None,
        Some(n) => {
            let rest = attrs.skip(n as int + opening.len());
            if position_of(rest, mark) < rest.len() {
                Some(Some(rest.take(position_of(rest, mark) as int)))
            } else {
                Some(None)
            }
        },
    }
}

/// The value of an attribute.
pub open spec fn attr_value(attrs: Seq<char>, name: Seq<char>) -> Option<Seq<char>> {
    match quoted(attrs, name + "=\""@, '"') {
        Some(value) => value,
        None => match quoted(attrs, name + "='"@, '\'') {
            Some(value) => value,
            None => None,
        },
    }
}

fn find_quoted(attrs: &str, opening: &str, mark: char) -> (r: Option<Option<String>>)
    ensures
        (match r {
            Some(value) => quoted(attrs@, opening@, mark) == Some(opt_text(value)),
            None => quoted(attrs@, opening@, mark) is None,
        }),
{
    let v = chars(attrs);
    let p = chars(opening);
    match next_match(&v, &p, 0) {
        None => None,
        Some(n) => {
            let from: usize = n + p.len();
            let to = next_position(&v, mark, from);
            proof {
                let rest = attrs@.skip(from as int);
                lemma_position_of_found(rest, mark);
                assert(rest.take(to - from) =~= attrs@.subrange(from as int, to as int));
            }
            if to < v.len() {
                Some(Some(slice(&v, from, to)))
            } else {
                Some(None)
            }
        },
    }
}

pub fn attr(attrs: &str, name: &str) -> (r: Option<String>)
    ensures
        opt_text(r) == attr_value(attrs@, name@),
{
    let double = name.to_owned().concat("=\"");
    match find_quoted(attrs, double.as_str(), '"') {
        Some(value) => value,
        None => {
            let single = name.to_owned().concat("='");
            match find_quoted(attrs, single.as_str(), '\'') {
                Some(value) => value,
                None => None,
            }
        },
    }
}

/// The number in an attribute, or zero.
pub open spec fn attr_number(attrs: Seq<char>, name: Seq<char>) -> int {
    match attr_value(attrs, name) {
        Some(value) => match integer_in(value) {
            Some(n) => n,
            None => 0,
        },
        None => 0,
    }
}

pub fn number_attr(attrs: &str, name: &str) -> (r: i32)
    ensures
        r == attr_number(attrs@, name@),
{
    match attr(attrs, name) {
        Some(value) => match parse_integer(value.as_str()) {
            Some(n) => n,
            None => 0,
        },
        None => 0,
    }
}

/// The text between markup, its character references resolved where none is broken.
pub open spec fn plain_text(raw: Seq<char>) -> Seq<char> {
    let stripped = with_all_replaced(TAG@, raw, ""@);
    match unescaped(replace(stripped, "&nbsp;"@, " "@)) {
        Some(t) => t,
        None => stripped,
    }
}

/// What a page is.
#[verifier::ext_equal]
pub struct PageView {
    pub number: nat,
    pub body: Seq<char>,
}

/// A page with the markup on it.
pub struct Page {
    pub number: usize,
    pub body: String,
}

impl View for Page {
    type V = PageView;

    open spec fn view(&self) -> PageView {
        PageView { number: self.number as nat, body: self.body@ }
    }
}

pub open spec fn page_views(v: Seq<Page>) -> Seq<PageView> {
    Seq::new(v.len(), |i: int| v[i]@)
}

/// The pages that have a number.
pub open spec fn numbered_pages(found: Seq<Seq<Option<FoundView>>>) -> Seq<PageView>
    decreases found.len(),
{
    if found.len() == 0 {
        seq![]
    } else {
        let before = numbered_pages(found.drop_last());
        let g = found.last();
        match attr_value(group_text(g, 1), "number"@) {
            Some(value) => match size_in(value) {
                Some(number) => before.push(PageView { number, body: group_text(g, 2) }),
                None => before,
            },
            None => before,
        }
    }
}

/// The numbered pages of a layout.
pub open spec fn pages_of(layout: Seq<char>) -> Seq<PageView> {
    numbered_pages(all_matches(LAYOUT_PAGE@, layout))
}

pub fn layout_pages(layout: &str) -> (r: Vec<Page>)
    ensures
        page_views(r@) == pages_of(layout@),
{
    found_pages(&Pattern::new(LAYOUT_PAGE).all(layout))
}

/// The pages that have a number, of those that were found.
pub fn found_pages(found: &Vec<Vec<Option<Found>>>) -> (r: Vec<Page>)
    ensures
        page_views(r@) == numbered_pages(all_groups(found@)),
{
    let ghost all = all_groups(found@);
    let mut r: Vec<Page> = Vec::new();
    let mut i: usize = 0;
    assert(page_views(r@) =~= numbered_pages(all.take(0)));
    while i < found.len()
        invariant
            i <= found@.len(),
            all == all_groups(found@),
            page_views(r@) == numbered_pages(all.take(i as int)),
        decreases found@.len() - i,
    {
        assert(all.take(i + 1).drop_last() =~= all.take(i as int));
        assert(all.take(i + 1).last() == groups(found@[i as int]@));
        let ghost before = page_views(r@);
        let attrs = captured_text(&found[i], 1);
        if let Some(value) = attr(attrs.as_str(), "number") {
            if let Some(number) = parse_size(value.as_str()) {
                let page = Page { number, body: captured_text(&found[i], 2) };
                let ghost added = page@;
                r.push(page);
                assert(page_views(r@) =~= before.push(added));
            }
        }
        i = i + 1;
    }
    assert(all.take(found@.len() as int) =~= all);
    r
}

/// What a text on a page is.
#[verifier::ext_equal]
pub struct FragmentView {
    pub top: int,
    pub left: int,
    pub font: Seq<char>,
    pub text: Seq<char>,
}

/// A text on a page, with its place and font.
pub struct Fragment {
    pub top: i32,
    pub left: i32,
    pub font: String,
    pub text: String,
}

impl View for Fragment {
    type V = FragmentView;

    open spec fn view(&self) -> FragmentView {
        FragmentView {
            top: self.top as int,
            left: self.left as int,
            font: self.font@,
            text: self.text@,
        }
    }
}

pub open spec fn fragment_views(v: Seq<Fragment>) -> Seq<FragmentView> {
    Seq::new(v.len(), |i: int| v[i]@)
}

/// The text that a match of the pattern for texts holds.
pub open spec fn fragment_of(g: Seq<Option<FoundView>>) -> FragmentView {
    fragment_with(group_text(g, 1), plain_text(group_text(g, 2)))
}

/// A text with the place and font that its attributes give.
pub open spec fn fragment_with(attrs: Seq<char>, text: Seq<char>) -> FragmentView {
    FragmentView {
        top: attr_number(attrs, "top"@),
        left: attr_number(attrs, "left"@),
        font: match attr_value(attrs, "font"@) {
            Some(font) => font,
            None => seq![],
        },
        text,
    }
}

/// A text with the place and font that its attributes give.
pub fn place_text(attrs: &str, text: String) -> (r: Fragment)
    ensures
        r@ == fragment_with(attrs@, text@),
{
    let font = match attr(attrs, "font") {
        Some(font) => font,
        None => String::new(),
    };
    Fragment {
        top: number_attr(attrs, "top"),
        left: number_attr(attrs, "left"),
        font,
        text,
    }
}

/// The texts of a page, in the order in which they are written down.
pub open spec fn fragments_of(body: Seq<char>) -> Seq<FragmentView> {
    let found = all_matches(LAYOUT_TEXT@, body);
    Seq::new(found.len(), |i: int| fragment_of(found[i]))
}

fn fragment(g: &Vec<Option<Found>>, tag: &Pattern) -> (r: Fragment)
    requires
        tag@ == TAG@,
    ensures
        r@ == fragment_of(groups(g@)),
{
    proof {
        reveal_strlit("&nbsp;");
    }
    let stripped = tag.replaced(captured_text(g, 2).as_str(), "");
    let text = match unescape(replaced(stripped.as_str(), "&nbsp;", " ").as_str()) {
        Some(t) => t,
        None => stripped,
    };
    place_text(captured_text(g, 1).as_str(), text)
}

pub fn page_fragments(body: &str) -> (r: Vec<Fragment>)
    ensures
        fragment_views(r@) == fragments_of(body@),
{
    let pattern = Pattern::new(LAYOUT_TEXT);
    let tag = Pattern::new(TAG);
    let found = pattern.all(body);
    let ghost all = all_groups(found@);
    let mut r: Vec<Fragment> = Vec::new();
    let mut i: usize = 0;
    while i < found.len()
        invariant
            i <= found@.len(),
            tag@ == TAG@,
            all == all_groups(found@),
            r@.len() == i,
            forall|j: int| 0 <= j < i ==> (#[trigger] r@[j])@ == fragment_of(all[j]),
        decreases found@.len() - i,
    {
        assert(all[i as int] == groups(found@[i as int]@));
        let next = fragment(&found[i], &tag);
        r.push(next);
        i = i + 1;
    }
    assert(fragment_views(r@) =~= fragments_of(body@));
    r
}

} // verus!
