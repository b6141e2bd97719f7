//! Images of a document, put into the items to which they belong.

use crate::document::{failure, Error};
use crate::layout::{
    attr, attr_value, fragment_views, fragments_of, layout_pages, number_attr, attr_number,
    page_fragments, page_views, pages_of, FragmentView, Page, PageView,
};
use crate::model::{clone_opt, opt_text, BillOfQuantities, BoqView, Position, PositionView};
use crate::order::{arrange, arranged, key_of, keys_of, law_ranking};
use crate::patterns::{
    all_groups, all_matches, captured_text, first_match, group_text, groups, Found, FoundView,
    Pattern, LAYOUT_IMAGE, OZ_ANYWHERE,
};
use crate::pictures::{decodable, is_decodable};
use crate::text::{
    chars, digits, ends_with, find_from, lemma_find_from, next_match, number, parse_unsigned, same,
    slice, starts_with, unsigned_in,
};
use crate::tree::{positions_as_written, ref_views, written_positions};
use vstd::arithmetic::div_mod::lemma_fundamental_div_mod_converse;
use vstd::prelude::*;

verus! {

/// What an image in a document is.
#[verifier::ext_equal]
pub struct InlinePngView {
    pub page: nat,
    pub top: int,
    pub width: nat,
    pub data: Seq<char>,
    pub target_oz: Option<Seq<char>>,
}

/// An image in a document: where it stands, how wide it is shown, the picture in base 64,
/// and the number of the position above it.
#[derive(Default)]
pub struct InlinePng {
    pub page: usize,
    pub top: i32,
    pub width: u32,
    pub data: String,
    pub target_oz: Option<String>,
}

impl View for InlinePng {
    type V = InlinePngView;

    open spec fn view(&self) -> InlinePngView {
        InlinePngView {
            page: self.page as nat,
            top: self.top as int,
            width: self.width as nat,
            data: self.data@,
            target_oz: opt_text(self.target_oz),
        }
    }
}

pub open spec fn image_views(v: Seq<InlinePng>) -> Seq<InlinePngView> {
    Seq::new(v.len(), |i: int| v[i]@)
}

/// What the place of a position is.
#[verifier::ext_equal]
pub struct PositionRefView {
    pub oz: Seq<char>,
    pub page_from: nat,
    pub page_to: nat,
}

/// The pages on which a position stands.
pub struct PositionRef {
    pub oz: String,
    pub page_from: usize,
    pub page_to: usize,
}

impl View for PositionRef {
    type V = PositionRefView;

    open spec fn view(&self) -> PositionRefView {
        PositionRefView {
            oz: self.oz@,
            page_from: self.page_from as nat,
            page_to: self.page_to as nat,
        }
    }
}

pub open spec fn place_views(v: Seq<PositionRef>) -> Seq<PositionRefView> {
    Seq::new(v.len(), |i: int| v[i]@)
}

/// The pages of a position; without any it stands on the first page.
pub open spec fn place_of(p: PositionView) -> PositionRefView {
    let from = match p.page_from {
        Some(page) => page as nat,
        None => 1,
    };
    let to = match p.page_to {
        Some(page) => page as nat,
        None => from,
    };
    PositionRefView {
        oz: p.oz,
        page_from: from,
        page_to: if to > from {
            to
        } else {
            from
        },
    }
}

pub fn position_ref(position: &Position) -> (r: PositionRef)
    ensures
        r@ == place_of(position@),
{
    let from: usize = match position.page_from {
        Some(page) => page,
        None => 1,
    };
    let to: usize = match position.page_to {
        Some(page) => page,
        None => from,
    };
    PositionRef {
        oz: position.oz.clone(),
        page_from: from,
        page_to: if to > from {
            to
        } else {
            from
        },
    }
}

/// The places of the positions, in the order in which items are written.
pub open spec fn places_of(boq: BoqView) -> Seq<PositionRefView> {
    let all = written_positions(boq.roots);
    Seq::new(all.len(), |i: int| place_of(all[i]))
}

pub fn flatten_positions(boq: &BillOfQuantities) -> (r: Vec<PositionRef>)
    ensures
        place_views(r@) == places_of(boq@),
{
    let all = positions_as_written(&boq.roots);
    let ghost views = written_positions(boq@.roots);
    assert(all@.len() == ref_views(all@).len());
    let mut r: Vec<PositionRef> = Vec::new();
    let mut i: usize = 0;
    while i < all.len()
        invariant
            i <= all@.len() == views.len(),
            views == ref_views(all@),
            r@.len() == i,
            forall|j: int| 0 <= j < i ==> (#[trigger] r@[j])@ == place_of(views[j]),
        decreases all@.len() - i,
    {
        assert(views[i as int] == all@[i as int]@);
        let place = position_ref(all[i]);
        r.push(place);
        i = i + 1;
    }
    assert(place_views(r@) =~= places_of(boq@));
    r
}

/// Whether an image stands on one of the pages of a position.
pub open spec fn covers(p: PositionRefView, page: nat) -> bool {
    p.page_from <= page && page <= p.page_to
}

/// Whether a place is closer than another: fewer pages, or as many and a later start.
pub open spec fn closer(a: PositionRefView, b: PositionRefView) -> bool {
    let x = a.page_to - a.page_from;
    let y = b.page_to - b.page_from;
    x < y || (x == y && a.page_from > b.page_from)
}

/// Whether a place can be meant: it covers the page, and where a number is given it has
/// that number.
pub open spec fn meant(p: PositionRefView, page: nat, oz: Option<Seq<char>>) -> bool {
    covers(p, page) && (oz is None || p.oz == oz->0)
}

/// The first of the closest among the first `n` places that can be meant.
pub open spec fn closest(
    v: Seq<PositionRefView>,
    page: nat,
    oz: Option<Seq<char>>,
    n: nat,
) -> Option<nat>
    decreases n,
{
    if n == 0 {
        None
    } else {
        let before = closest(v, page, oz, (n - 1) as nat);
        let p = v[n - 1];
        if meant(p, page, oz) && (before is None || closer(p, v[before->0 as int])) {
            Some((n - 1) as nat)
        } else {
            before
        }
    }
}

/// The first place with a number, from `n` on.
pub open spec fn first_with(v: Seq<PositionRefView>, oz: Seq<char>, n: nat) -> Option<nat>
    decreases v.len() - n,
{
    if n >= v.len() {
        None
    } else if v[n as int].oz == oz {
        Some(n)
    } else {
        first_with(v, oz, n + 1)
    }
}

/// The place to which an image belongs: that of the number above it, else one on whose
/// pages it stands.
pub open spec fn place_for(image: InlinePngView, v: Seq<PositionRefView>) -> Option<nat> {
    let any = closest(v, image.page, None, v.len());
    match image.target_oz {
        None => any,
        Some(oz) => {
            let here = closest(v, image.page, Some(oz), v.len());
            let named = first_with(v, oz, 0);
            if here is Some {
                here
            } else if named is Some {
                named
            } else {
                any
            }
        },
    }
}

fn is_closer(a: &PositionRef, b: &PositionRef) -> (r: bool)
    requires
        a.page_from <= a.page_to,
        b.page_from <= b.page_to,
    ensures
        r == closer(a@, b@),
{
    let x: usize = a.page_to - a.page_from;
    let y: usize = b.page_to - b.page_from;
    x < y || (x == y && a.page_from > b.page_from)
}

pub open spec fn index_view(v: Option<usize>) -> Option<nat> {
    match v {
        Some(i) => Some(i as nat),
        None => None,
    }
}

fn find_closest(v: &Vec<PositionRef>, page: usize, oz: Option<&str>) -> (r: Option<usize>)
    ensures
        index_view(r) == closest(
            place_views(v@),
            page as nat,
            match oz {
                Some(s) => Some(s@),
                None => None,
            },
            v@.len(),
        ),
        r is Some ==> r->0 < v@.len(),
{
    let ghost all = place_views(v@);
    let ghost named = match oz {
        Some(s) => Some(s@),
        None => None,
    };
    let mut best: Option<usize> = None;
    let mut i: usize = 0;
    while i < v.len()
        invariant
            i <= v@.len(),
            all == place_views(v@),
            named == (match oz {
                Some(s) => Some(s@),
                None => None,
            }),
            index_view(best) == closest(all, page as nat, named, i as nat),
            best is Some ==> best->0 < i && v@[best->0 as int].page_from <= v@[best->0 as int].page_to,
        decreases v@.len() - i,
    {
        assert(all[i as int] == v@[i as int]@);
        let fits = v[i].page_from <= page && page <= v[i].page_to && match oz {
            Some(s) => same(v[i].oz.as_str(), s),
            None => true,
        };
        if fits {
            match best {
                None => {
                    best = Some(i);
                },
                Some(b) => {
                    assert(all[b as int] == v@[b as int]@);
                    if is_closer(&v[i], &v[b]) {
                        best = Some(i);
                    }
                },
            }
        }
        i = i + 1;
    }
    best
}

fn find_named(v: &Vec<PositionRef>, oz: &str) -> (r: Option<usize>)
    ensures
        index_view(r) == first_with(place_views(v@), oz@, 0),
        r is Some ==> r->0 < v@.len(),
{
    let ghost all = place_views(v@);
    let mut i: usize = 0;
    while i < v.len()
        invariant
            i <= v@.len(),
            all == place_views(v@),
            first_with(all, oz@, 0) == first_with(all, oz@, i as nat),
        decreases v@.len() - i,
    {
        assert(all[i as int] == v@[i as int]@);
        if same(v[i].oz.as_str(), oz) {
            return Some(i);
        }
        i = i + 1;
    }
    None
}

pub fn best_position_index(image: &InlinePng, positions: &Vec<PositionRef>) -> (r: Option<usize>)
    ensures
        index_view(r) == place_for(image@, place_views(positions@)),
        r is Some ==> r->0 < positions@.len(),
{
    if let Some(target) = &image.target_oz {
        let here = find_closest(positions, image.page, Some(target.as_str()));
        if here.is_some() {
            return here;
        }
        let named = find_named(positions, target.as_str());
        if named.is_some() {
            return named;
        }
    }
    find_closest(positions, image.page, None)
}

/// What a position number on a page is.
#[verifier::ext_equal]
pub struct TextMarkerView {
    pub top: int,
    pub oz: Seq<char>,
}

/// A position number on a page, with its height.
#[derive(Default)]
pub struct TextMarker {
    pub top: i32,
    pub oz: String,
}

impl View for TextMarker {
    type V = TextMarkerView;

    open spec fn view(&self) -> TextMarkerView {
        TextMarkerView { top: self.top as int, oz: self.oz@ }
    }
}

pub open spec fn marker_views(v: Seq<TextMarker>) -> Seq<TextMarkerView> {
    Seq::new(v.len(), |i: int| v[i]@)
}

/// The lowest of the first `n` marks that stands at or above a height, the last of them.
pub open spec fn lowest_above(v: Seq<TextMarkerView>, top: int, n: nat) -> Option<nat>
    decreases n,
{
    if n == 0 {
        None
    } else {
        let before = lowest_above(v, top, (n - 1) as nat);
        let m = v[n - 1];
        if m.top <= top && (before is None || m.top >= v[before->0 as int].top) {
            Some((n - 1) as nat)
        } else {
            before
        }
    }
}

pub open spec fn distance(a: int, b: int) -> int {
    if a < b {
        b - a
    } else {
        a - b
    }
}

/// The first of the nearest among the first `n` marks.
pub open spec fn nearest(v: Seq<TextMarkerView>, top: int, n: nat) -> Option<nat>
    decreases n,
{
    if n == 0 {
        None
    } else {
        let before = nearest(v, top, (n - 1) as nat);
        if before is None || distance(v[n - 1].top, top) < distance(v[before->0 as int].top, top) {
            Some((n - 1) as nat)
        } else {
            before
        }
    }
}

/// The number to which something at this height belongs: the last one above it, or else
/// the nearest.
pub open spec fn number_above(v: Seq<TextMarkerView>, top: int) -> Option<Seq<char>> {
    match lowest_above(v, top, v.len()) {
        Some(i) => Some(v[i as int].oz),
        None => match nearest(v, top, v.len()) {
            Some(i) => Some(v[i as int].oz),
            None => None,
        },
    }
}

fn gap(a: i32, b: i32) -> (r: i64)
    ensures
        r == distance(a as int, b as int),
{
    if a < b {
        b as i64 - a as i64
    } else {
        a as i64 - b as i64
    }
}

pub fn nearest_preceding_oz(top: i32, markers: &Vec<TextMarker>) -> (r: Option<String>)
    ensures
        opt_text(r) == number_above(marker_views(markers@), top as int),
{
    let ghost all = marker_views(markers@);
    let mut above: Option<usize> = None;
    let mut near: Option<usize> = None;
    let mut i: usize = 0;
    while i < markers.len()
        invariant
            i <= markers@.len(),
            all == marker_views(markers@),
            index_view(above) == lowest_above(all, top as int, i as nat),
            index_view(near) == nearest(all, top as int, i as nat),
            above is Some ==> above->0 < i,
            near is Some ==> near->0 < i,
        decreases markers@.len() - i,
    {
        assert(all[i as int] == markers@[i as int]@);
        if markers[i].top <= top {
            let lower = match above {
                None => true,
                Some(b) => {
                    assert(all[b as int] == markers@[b as int]@);
                    markers[i].top >= markers[b].top
                },
            };
            if lower {
                above = Some(i);
            }
        }
        let nearer = match near {
            None => true,
            Some(b) => {
                assert(all[b as int] == markers@[b as int]@);
                gap(markers[i].top, top) < gap(markers[b].top, top)
            },
        };
        if nearer {
            near = Some(i);
        }
        i = i + 1;
    }
    match above {
        Some(b) => {
            assert(all[b as int] == markers@[b as int]@);
            Some(markers[b].oz.clone())
        },
        None => match near {
            Some(b) => {
                assert(all[b as int] == markers@[b as int]@);
                Some(markers[b].oz.clone())
            },
            None => None,
        },
    }
}

/// The position numbers in the texts of a page, in the order in which they are written
/// down.
pub open spec fn markers_in(v: Seq<FragmentView>) -> Seq<TextMarkerView>
    decreases v.len(),
{
    if v.len() == 0 {
        seq![]
    } else {
        let before = markers_in(v.drop_last());
        match first_match(OZ_ANYWHERE@, v.last().text) {
            Some(g) => before.push(TextMarkerView { top: v.last().top, oz: group_text(g, 0) }),
            None => before,
        }
    }
}

pub open spec fn marker_keys(v: Seq<TextMarkerView>) -> Seq<Seq<int>> {
    Seq::new(v.len(), |i: int| seq![v[i].top])
}

/// The position numbers of a page from top to bottom.
pub open spec fn markers_of(body: Seq<char>) -> Seq<TextMarkerView> {
    let found = markers_in(fragments_of(body));
    arranged(found, marker_keys(found))
}

fn page_markers(body: &str, pattern: &Pattern) -> (r: Vec<TextMarker>)
    requires
        pattern@ == OZ_ANYWHERE@,
    ensures
        marker_views(r@) == markers_of(body@),
{
    let fragments = page_fragments(body);
    let ghost all = fragment_views(fragments@);
    let mut found: Vec<TextMarker> = Vec::new();
    let mut keys: Vec<Vec<i128>> = Vec::new();
    let mut i: usize = 0;
    assert(marker_views(found@) =~= markers_in(all.take(0)));
    while i < fragments.len()
        invariant
            i <= fragments@.len(),
            pattern@ == OZ_ANYWHERE@,
            all == fragment_views(fragments@),
            marker_views(found@) == markers_in(all.take(i as int)),
            keys@.len() == found@.len(),
            forall|j: int|
                0 <= j < keys@.len() ==> key_of((#[trigger] keys@[j])@) == seq![found@[j]@.top],
        decreases fragments@.len() - i,
    {
        assert(all.take(i + 1).drop_last() =~= all.take(i as int));
        assert(all.take(i + 1).last() == fragments@[i as int]@);
        let ghost before = marker_views(found@);
        if let Some(g) = pattern.first(fragments[i].text.as_str()) {
            let marker = TextMarker { top: fragments[i].top, oz: captured_text(&g, 0) };
            let ghost added = marker@;
            let mut key: Vec<i128> = Vec::new();
            key.push(fragments[i].top as i128);
            assert(key_of(key@) =~= seq![added.top]);
            found.push(marker);
            keys.push(key);
            assert(marker_views(found@) =~= before.push(added));
        }
        i = i + 1;
    }
    assert(all.take(fragments@.len() as int) =~= all);
    let ghost views = marker_views(found@);
    assert(keys_of(keys@) =~= marker_keys(views));
    proof {
        law_ranking(keys_of(keys@), found@.len());
    }
    let r = arrange(found, &keys);
    assert(marker_views(r@) =~= arranged(views, marker_keys(views)));
    r
}

/// The sign for a number below 64 in base 64.
pub open spec fn base64_sign(n: int) -> char {
    "ABCDEFGHIJKLMNOPQRSTUVWXYZabcdefghijklmnopqrstuvwxyz0123456789+/"@[n]
}

/// Bytes in base 64 with padding.
pub open spec fn base64(b: Seq<u8>) -> Seq<char>
    decreases b.len(),
{
    let n = (if b.len() > 0 { b[0] as int * 65536 } else { 0 }) + (if b.len() > 1 { b[1] as int
        * 256 } else { 0 }) + (if b.len() > 2 { b[2] as int } else { 0 });
    let first = seq![base64_sign(n / 262144), base64_sign(n / 4096 % 64)];
    if b.len() == 0 {
        seq![]
    } else if b.len() == 1 {
        first + seq!['=', '=']
    } else if b.len() == 2 {
        first + seq![base64_sign(n / 64 % 64), '=']
    } else {
        first + seq![base64_sign(n / 64 % 64), base64_sign(n % 64)] + base64(b.skip(3))
    }
}

/// `Engine::encode` of the engine `STANDARD` of `base64`: the standard alphabet with
/// padding.
#[verifier::external_body]
pub(crate) fn encode_base64(bytes: &[u8]) -> (r: String)
    ensures
        r@ == base64(bytes@),
{
    base64::Engine::encode(&base64::engine::general_purpose::STANDARD, bytes)
}

/// The width and height of the picture that `image` reads from a file, if it does.
pub uninterp spec fn picture_size(name: Seq<char>, bytes: Seq<u8>) -> Option<(u32, u32)>;

/// `ImageReader::decode` of `image`, and the size of what was read. Whether a file can
/// be read, and how large the picture is, depends on its contents, and where these do
/// not tell the format, on its name. On a file that is not `decodable` the decoders may
/// panic. They let numbers wrap around; nothing is said of a build that checks for
/// overflow.
#[verifier::external_body]
fn measure(name: &str, bytes: &[u8]) -> (r: Option<(u32, u32)>)
    requires
        decodable(bytes@),
    ensures
        r == picture_size(name@, bytes@),
{
    let mut reader = image::ImageReader::new(std::io::Cursor::new(bytes));
    if let Ok(format) = image::ImageFormat::from_path(name) {
        reader.set_format(format);
    }
    let picture = reader.with_guessed_format().ok()?.decode().ok()?;
    Some((picture.width(), picture.height()))
}

/// The picture in a file as `image` writes it in PNG format, or what it says where it
/// does not.
pub uninterp spec fn png_of(name: Seq<char>, bytes: Seq<u8>) -> Result<Seq<u8>, Seq<char>>;

pub open spec fn png_outcome(v: Result<Vec<u8>, String>) -> Result<Seq<u8>, Seq<char>> {
    match v {
        Ok(b) => Ok(b@),
        Err(e) => Err(e@),
    }
}

/// `DynamicImage::write_to` of `image` in PNG format, on the picture that is read from a
/// file. Whether that succeeds, and what comes out or is said, depends on the contents
/// and name of the file. On a file that is not `decodable` the decoders may panic; nothing
/// is said of a build that checks for overflow.
#[verifier::external_body]
fn write_png(name: &str, bytes: &[u8]) -> (r: Result<Vec<u8>, String>)
    requires
        decodable(bytes@),
    ensures
        png_outcome(r) == png_of(name@, bytes@),
{
    let mut reader = image::ImageReader::new(std::io::Cursor::new(bytes));
    if let Ok(format) = image::ImageFormat::from_path(name) {
        reader.set_format(format);
    }
    let reader = reader.with_guessed_format().map_err(|e| e.to_string())?;
    let picture = reader.decode().map_err(|e| e.to_string())?;
    let mut png = std::io::Cursor::new(Vec::new());
    picture.write_to(&mut png, image::ImageFormat::Png).map_err(|e| e.to_string())?;
    Ok(png.into_inner())
}

/// What an image in a page layout is.
#[verifier::ext_equal]
pub struct PlacedImageView {
    pub page: nat,
    pub top: int,
    pub width: nat,
    pub height: nat,
    pub src: Seq<char>,
    pub target_oz: Option<Seq<char>>,
}

/// An image in a page layout.
pub struct PlacedImage {
    pub page: usize,
    pub top: i32,
    pub width: u32,
    pub height: u32,
    pub src: String,
    pub target_oz: Option<String>,
}

impl View for PlacedImage {
    type V = PlacedImageView;

    open spec fn view(&self) -> PlacedImageView {
        PlacedImageView {
            page: self.page as nat,
            top: self.top as int,
            width: self.width as nat,
            height: self.height as nat,
            src: self.src@,
            target_oz: opt_text(self.target_oz),
        }
    }
}

pub open spec fn placed_views(v: Seq<PlacedImage>) -> Seq<PlacedImageView> {
    Seq::new(v.len(), |i: int| v[i]@)
}

/// A length in an attribute, or else a given one.
pub open spec fn attr_length(attrs: Seq<char>, name: Seq<char>, default: nat) -> nat {
    match attr_value(attrs, name) {
        Some(value) => match unsigned_in(value, u32::MAX as nat) {
            Some(n) => n,
            None => default,
        },
        None => default,
    }
}

fn length_attr(attrs: &str, name: &str, default: u32) -> (r: u32)
    ensures
        r == attr_length(attrs@, name@, default as nat),
{
    match attr(attrs, name) {
        Some(value) => match parse_unsigned(value.as_str(), u32::MAX as u64) {
            Some(n) => n as u32,
            None => default,
        },
        None => default,
    }
}

/// The images of a page, in the order in which they are written down; one without a
/// source is left out.
pub open spec fn images_in(
    found: Seq<Seq<Option<FoundView>>>,
    page: nat,
    markers: Seq<TextMarkerView>,
) -> Seq<PlacedImageView>
    decreases found.len(),
{
    if found.len() == 0 {
        seq![]
    } else {
        let before = images_in(found.drop_last(), page, markers);
        let attrs = group_text(found.last(), 1);
        let top = attr_number(attrs, "top"@);
        match attr_value(attrs, "src"@) {
            None => before,
            Some(src) => before.push(
                PlacedImageView {
                    page,
                    top,
                    width: attr_length(attrs, "width"@, 297),
                    height: attr_length(attrs, "height"@, 0),
                    src,
                    target_oz: number_above(markers, top),
                },
            ),
        }
    }
}

/// The images of the first `n` pages.
pub open spec fn placed_until(pages: Seq<PageView>, n: nat) -> Seq<PlacedImageView>
    decreases n,
{
    if n == 0 {
        seq![]
    } else {
        let page = pages[n - 1];
        placed_until(pages, (n - 1) as nat) + images_in(
            all_matches(LAYOUT_IMAGE@, page.body),
            page.number,
            markers_of(page.body),
        )
    }
}

/// The images of a page layout.
pub open spec fn placed_images_of(layout: Seq<char>) -> Seq<PlacedImageView> {
    placed_until(pages_of(layout), pages_of(layout).len())
}

fn add_page_images(page: &Page, markers: &Vec<TextMarker>, target: &mut Vec<PlacedImage>)
    ensures
        placed_views(final(target)@) == placed_views(old(target)@) + images_in(
            all_matches(LAYOUT_IMAGE@, page.body@),
            page.number as nat,
            marker_views(markers@),
        ),
{
    let found = Pattern::new(LAYOUT_IMAGE).all(page.body.as_str());
    add_found_images(&found, page.number, markers, target);
}

/// Adds the images of a page, given the matches of their tags.
pub fn add_found_images(
    found: &Vec<Vec<Option<Found>>>,
    page: usize,
    markers: &Vec<TextMarker>,
    target: &mut Vec<PlacedImage>,
)
    ensures
        placed_views(final(target)@) == placed_views(old(target)@) + images_in(
            all_groups(found@),
            page as nat,
            marker_views(markers@),
        ),
{
    let ghost all = all_groups(found@);
    let ghost above = marker_views(markers@);
    let ghost start = placed_views(target@);
    let mut i: usize = 0;
    assert(start + images_in(all.take(0), page as nat, above) =~= start);
    while i < found.len()
        invariant
            i <= found@.len(),
            all == all_groups(found@),
            above == marker_views(markers@),
            placed_views(target@) == start + images_in(
                all.take(i as int),
                page as nat,
                above,
            ),
        decreases found@.len() - i,
    {
        assert(all.take(i + 1).drop_last() =~= all.take(i as int));
        assert(all.take(i + 1).last() == groups(found@[i as int]@));
        let ghost before = placed_views(target@);
        let attrs = captured_text(&found[i], 1);
        let top = number_attr(attrs.as_str(), "top");
        if let Some(src) = attr(attrs.as_str(), "src") {
            let image = PlacedImage {
                page,
                top,
                width: length_attr(attrs.as_str(), "width", 297),
                height: length_attr(attrs.as_str(), "height", 0),
                src,
                target_oz: nearest_preceding_oz(top, markers),
            };
            let ghost added = image@;
            target.push(image);
            assert(placed_views(target@) =~= before.push(added));
            assert(before.push(added) =~= start + images_in(
                all.take(i + 1),
                page as nat,
                above,
            ));
        }
        i = i + 1;
    }
    assert(all.take(found@.len() as int) =~= all);
}

/// The images of a page layout.
pub fn placed_images(layout: &str) -> (r: Vec<PlacedImage>)
    ensures
        placed_views(r@) == placed_images_of(layout@),
{
    let pattern = Pattern::new(OZ_ANYWHERE);
    let pages = layout_pages(layout);
    let ghost views = pages_of(layout@);
    assert(pages@.len() == page_views(pages@).len());
    let mut r: Vec<PlacedImage> = Vec::new();
    let mut i: usize = 0;
    assert(placed_views(r@) =~= placed_until(views, 0));
    while i < pages.len()
        invariant
            i <= pages@.len() == views.len(),
            views == page_views(pages@),
            pattern@ == OZ_ANYWHERE@,
            placed_views(r@) == placed_until(views, i as nat),
        decreases pages@.len() - i,
    {
        assert(views[i as int] == pages@[i as int]@);
        let markers = page_markers(pages[i].body.as_str(), &pattern);
        add_page_images(&pages[i], &markers, &mut r);
        i = i + 1;
    }
    r
}

/// Where an image file lies: a source that starts at the root of the file system stands
/// for itself, any other lies below the directory.
pub open spec fn image_path(base_dir: Seq<char>, src: Seq<char>) -> Seq<char> {
    if "/"@.is_prefix_of(src) {
        src
    } else if base_dir.len() == 0 || "/"@.is_suffix_of(base_dir) {
        base_dir + src
    } else {
        base_dir + "/"@ + src
    }
}

pub fn resolve_image_path(base_dir: &str, src: &str) -> (r: String)
    ensures
        r@ == image_path(base_dir@, src@),
{
    if starts_with(src, "/") {
        src.to_owned()
    } else if base_dir.is_empty() || ends_with(base_dir, "/") {
        base_dir.to_owned().concat(src)
    } else {
        base_dir.to_owned().concat("/").concat(src)
    }
}

/// What an image file is.
#[verifier::ext_equal]
pub struct ImageFileView {
    pub path: Seq<char>,
    pub bytes: Seq<u8>,
}

/// An image file.
pub struct ImageFile {
    pub path: String,
    pub bytes: Vec<u8>,
}

impl View for ImageFile {
    type V = ImageFileView;

    open spec fn view(&self) -> ImageFileView {
        ImageFileView { path: self.path@, bytes: self.bytes@ }
    }
}

pub open spec fn file_views(v: Seq<ImageFile>) -> Seq<ImageFileView> {
    Seq::new(v.len(), |i: int| v[i]@)
}

/// The first file with a path, from `n` on.
pub open spec fn file_at(v: Seq<ImageFileView>, path: Seq<char>, n: nat) -> Option<ImageFileView>
    decreases v.len() - n,
{
    if n >= v.len() {
        None
    } else if v[n as int].path == path {
        Some(v[n as int])
    } else {
        file_at(v, path, n + 1)
    }
}

fn find_file<'a>(v: &'a Vec<ImageFile>, path: &str) -> (r: Option<&'a ImageFile>)
    ensures
        (match r {
            Some(f) => file_at(file_views(v@), path@, 0) == Some(f@),
            None => file_at(file_views(v@), path@, 0) is None,
        }),
{
    let ghost all = file_views(v@);
    let mut i: usize = 0;
    while i < v.len()
        invariant
            i <= v@.len(),
            all == file_views(v@),
            file_at(all, path@, 0) == file_at(all, path@, i as nat),
        decreases v@.len() - i,
    {
        assert(all[i as int] == v@[i as int]@);
        if same(v[i].path.as_str(), path) {
            return Some(&v[i]);
        }
        i = i + 1;
    }
    None
}

/// What becomes of an image with a picture of this size: nothing where it is tiny.
pub open spec fn shown(
    image: PlacedImageView,
    path: Seq<char>,
    size: Option<(u32, u32)>,
    png: Result<Seq<u8>, Seq<char>>,
) -> Result<Option<InlinePngView>, Seq<char>> {
    match size {
        None => Err("Bild konnte nicht dekodiert werden: "@ + path),
        Some((width, height)) => if width < 32 || height < 32 || image.width < 24 || image.height
            < 24 {
            Ok(None)
        } else {
            match png {
                Err(said) => Err(said),
                Ok(bytes) => Ok(
                    Some(
                        InlinePngView {
                            page: image.page,
                            top: image.top,
                            width: image.width,
                            data: base64(bytes),
                            target_oz: image.target_oz,
                        },
                    ),
                ),
            }
        },
    }
}

pub open spec fn shown_outcome(r: Result<Option<InlinePng>, Error>) -> Result<
    Option<InlinePngView>,
    Seq<char>,
> {
    match r {
        Ok(Some(image)) => Ok(Some(image@)),
        Ok(None) => Ok(None),
        Err(error) => Err(error@),
    }
}

/// Whether a picture of this size, shown at this size, is more than decoration.
pub fn is_large_enough(size: (u32, u32), display: (u32, u32)) -> (r: bool)
    ensures
        r == !(size.0 < 32 || size.1 < 32 || display.0 < 24 || display.1 < 24),
{
    size.0 >= 32 && size.1 >= 32 && display.0 >= 24 && display.1 >= 24
}

/// What becomes of an image with a picture of this size and these bytes.
pub fn show_image(
    image: &PlacedImage,
    path: &str,
    size: Option<(u32, u32)>,
    png: Result<Vec<u8>, String>,
) -> (r: Result<Option<InlinePng>, Error>)
    ensures
        shown_outcome(r) == shown(image@, path@, size, png_outcome(png)),
{
    match size {
        None => Err(
            Error { message: "Bild konnte nicht dekodiert werden: ".to_owned().concat(path) },
        ),
        Some(size) => {
            if !is_large_enough(size, (image.width, image.height)) {
                return Ok(None);
            }
            match png {
                Err(said) => Err(Error { message: said }),
                Ok(bytes) => Ok(
                    Some(
                        InlinePng {
                            page: image.page,
                            top: image.top,
                            width: image.width,
                            data: encode_base64(bytes.as_slice()),
                            target_oz: clone_opt(&image.target_oz),
                        },
                    ),
                ),
            }
        },
    }
}

/// The size of the picture in a file, if it can be read.
pub open spec fn known_size(name: Seq<char>, bytes: Seq<u8>) -> Option<(u32, u32)> {
    if decodable(bytes) {
        picture_size(name, bytes)
    } else {
        None
    }
}

/// What becomes of an image with the picture in a file.
pub fn show_file(image: &PlacedImage, path: &str, bytes: &[u8]) -> (r: Result<
    Option<InlinePng>,
    Error,
>)
    ensures
        shown_outcome(r) == shown(
            image@,
            path@,
            known_size(path@, bytes@),
            png_of(path@, bytes@),
        ),
{
    if !is_decodable(bytes) {
        return show_image(image, path, None, Err(String::new()));
    }
    let size = measure(path, bytes);
    let wanted = match size {
        Some(size) => is_large_enough(size, (image.width, image.height)),
        None => false,
    };
    if wanted {
        show_image(image, path, size, write_png(path, bytes))
    } else {
        show_image(image, path, size, Err(String::new()))
    }
}

/// The first `n` images with their pictures. One whose file is missing is left out; the
/// first one that fails ends it.
pub open spec fn pictured(
    v: Seq<PlacedImageView>,
    base_dir: Seq<char>,
    files: Seq<ImageFileView>,
    n: nat,
) -> Result<Seq<InlinePngView>, Seq<char>>
    decreases n,
{
    if n == 0 {
        Ok(seq![])
    } else {
        let path = image_path(base_dir, v[n - 1].src);
        match pictured(v, base_dir, files, (n - 1) as nat) {
            Err(e) => Err(e),
            Ok(before) => match file_at(files, path, 0) {
                None => Ok(before),
                Some(f) => match shown(
                    v[n - 1],
                    path,
                    known_size(path, f.bytes),
                    png_of(path, f.bytes),
                ) {
                    Err(e) => Err(e),
                    Ok(None) => Ok(before),
                    Ok(Some(image)) => Ok(before.push(image)),
                },
            },
        }
    }
}

pub open spec fn image_keys(v: Seq<InlinePngView>) -> Seq<Seq<int>> {
    Seq::new(v.len(), |i: int| seq![v[i].page as int, v[i].top])
}

/// The images of a layout from the first page to the last and from top to bottom.
pub open spec fn layout_images(
    layout: Seq<char>,
    base_dir: Seq<char>,
    files: Seq<ImageFileView>,
) -> Result<Seq<InlinePngView>, Seq<char>> {
    let v = placed_images_of(layout);
    match pictured(v, base_dir, files, v.len()) {
        Ok(images) => Ok(arranged(images, image_keys(images))),
        Err(e) => Err(e),
    }
}

pub open spec fn images_outcome(r: Result<Vec<InlinePng>, Error>) -> Result<
    Seq<InlinePngView>,
    Seq<char>,
> {
    match r {
        Ok(images) => Ok(image_views(images@)),
        Err(error) => Err(error@),
    }
}

fn sort_images(v: Vec<InlinePng>) -> (r: Vec<InlinePng>)
    ensures
        image_views(r@) == arranged(image_views(v@), image_keys(image_views(v@))),
{
    let ghost views = image_views(v@);
    let mut keys: Vec<Vec<i128>> = Vec::new();
    let mut i: usize = 0;
    while i < v.len()
        invariant
            i <= v@.len(),
            keys@.len() == i,
            views == image_views(v@),
            forall|j: int|
                0 <= j < i ==> key_of((#[trigger] keys@[j])@) == seq![
                    views[j].page as int,
                    views[j].top,
                ],
        decreases v@.len() - i,
    {
        let mut key: Vec<i128> = Vec::new();
        key.push(v[i].page as i128);
        key.push(v[i].top as i128);
        assert(key_of(key@) =~= seq![views[i as int].page as int, views[i as int].top]);
        keys.push(key);
        i = i + 1;
    }
    assert(keys_of(keys@) =~= image_keys(views));
    proof {
        law_ranking(keys_of(keys@), v@.len());
    }
    let r = arrange(v, &keys);
    assert(image_views(r@) =~= arranged(views, image_keys(views)));
    r
}

proof fn lemma_failed(
    v: Seq<PlacedImageView>,
    base_dir: Seq<char>,
    files: Seq<ImageFileView>,
    n: nat,
    m: nat,
)
    requires
        n <= m,
        pictured(v, base_dir, files, n) is Err,
    ensures
        pictured(v, base_dir, files, m) == pictured(v, base_dir, files, n),
    decreases m,
{
    if n < m {
        lemma_failed(v, base_dir, files, n, (m - 1) as nat);
    }
}

/// The images of a page layout, given the files that lie where they are said to be.
pub fn parse_layout_images(layout: &str, base_dir: &str, files: &Vec<ImageFile>) -> (r: Result<
    Vec<InlinePng>,
    Error,
>)
    ensures
        images_outcome(r) == layout_images(layout@, base_dir@, file_views(files@)),
{
    let v = placed_images(layout);
    let ghost all = placed_images_of(layout@);
    let ghost given = file_views(files@);
    assert(v@.len() == placed_views(v@).len());
    let mut images: Vec<InlinePng> = Vec::new();
    let mut i: usize = 0;
    assert(image_views(images@) =~= seq![]);
    while i < v.len()
        invariant
            i <= v@.len() == all.len(),
            all == placed_views(v@),
            all == placed_images_of(layout@),
            given == file_views(files@),
            pictured(all, base_dir@, given, i as nat) == Ok::<Seq<InlinePngView>, Seq<char>>(
                image_views(images@),
            ),
        decreases v@.len() - i,
    {
        assert(all[i as int] == v@[i as int]@);
        let path = resolve_image_path(base_dir, v[i].src.as_str());
        if let Some(file) = find_file(files, path.as_str()) {
            match show_file(&v[i], path.as_str(), file.bytes.as_slice()) {
                Err(error) => {
                    proof {
                        lemma_failed(all, base_dir@, given, (i + 1) as nat, all.len());
                    }
                    return Err(error);
                },
                Ok(None) => {},
                Ok(Some(image)) => {
                    let ghost before = image_views(images@);
                    let ghost added = image@;
                    images.push(image);
                    assert(image_views(images@) =~= before.push(added));
                },
            }
        }
        i = i + 1;
    }
    Ok(sort_images(images))
}

/// The paragraph with an image.
pub open spec fn image_block(image: InlinePngView) -> Seq<char> {
    "            <p>\n              <image width=\""@ + digits(image.width)
        + "\" Type=\"image/png\" Encoding=\"base64\">"@ + image.data + "</image>\n            </p>\n"@
}

/// The paragraphs with images.
pub open spec fn image_blocks(v: Seq<InlinePngView>) -> Seq<char>
    decreases v.len(),
{
    if v.len() == 0 {
        seq![]
    } else {
        image_blocks(v.drop_last()) + image_block(v.last())
    }
}

/// Where the short text of an item stands, be it filled or empty.
pub open spec fn outline_at(item: Seq<char>) -> Option<nat> {
    match find_from(item, "<OutlineText>"@, 0) {
        Some(n) => Some(n),
        None => find_from(item, "<OutlineText/>"@, 0),
    }
}

/// An item with images: at the end of its text, or in a text of its own in front of the
/// short text.
pub open spec fn item_with(item: Seq<char>, images: Seq<InlinePngView>) -> Seq<char> {
    let blocks = image_blocks(images);
    if images.len() == 0 {
        item
    } else {
        match find_from(item, "</Text>"@, 0) {
            Some(n) => item.take(n as int) + blocks + item.skip(n as int),
            None => match outline_at(item) {
                Some(n) => item.take(n as int) + "        <DetailTxt>\n          <Text>\n"@ + blocks
                    + "          </Text>\n        </DetailTxt>\n        "@ + item.skip(n as int),
                None => item,
            },
        }
    }
}

/// The images that belong to place `k`.
pub open spec fn images_for(
    images: Seq<InlinePngView>,
    places: Seq<PositionRefView>,
    k: nat,
) -> Seq<InlinePngView>
    decreases images.len(),
{
    if images.len() == 0 {
        seq![]
    } else {
        let before = images_for(images.drop_last(), places, k);
        if k < places.len() && place_for(images.last(), places) == Some(k) {
            before.push(images.last())
        } else {
            before
        }
    }
}

/// The document from `cursor` on with the images of its items, of which the next is that
/// of place `k`, and the number of images.
pub open spec fn with_images(
    xml: Seq<char>,
    cursor: nat,
    k: nat,
    images: Seq<InlinePngView>,
    places: Seq<PositionRefView>,
) -> Result<(Seq<char>, nat), Seq<char>>
    decreases xml.len() - cursor,
    when cursor <= xml.len()
{
    match find_from(xml, "<Item "@, cursor) {
        None => Ok((xml.skip(cursor as int), 0)),
        Some(start) => match find_from(xml, "</Item>"@, start) {
            None => Err("Unvollständiges Item im X83-Dokument"@),
            Some(close) => {
                proof {
                    lemma_find_from(xml, "<Item "@, cursor);
                    lemma_find_from(xml, "</Item>"@, start);
                    reveal_strlit("</Item>");
                }
                let end = close + "</Item>"@.len();
                let own = images_for(images, places, k);
                match with_images(xml, end, k + 1, images, places) {
                    Err(e) => Err(e),
                    Ok((rest, count)) => Ok(
                        (
                            xml.subrange(cursor as int, start as int) + item_with(
                                xml.subrange(start as int, end as int),
                                own,
                            ) + rest,
                            own.len() + count,
                        ),
                    ),
                }
            },
        },
    }
}

fn blocks_of(images: &Vec<&InlinePng>) -> (r: String)
    ensures
        r@ == image_blocks(Seq::new(images@.len(), |i: int| images@[i]@)),
{
    let ghost all = Seq::new(images@.len(), |i: int| images@[i]@);
    let mut r = String::new();
    let mut i: usize = 0;
    assert(all.take(0) =~= seq![]);
    while i < images.len()
        invariant
            i <= images@.len(),
            all == Seq::new(images@.len(), |j: int| images@[j]@),
            r@ == image_blocks(all.take(i as int)),
        decreases images@.len() - i,
    {
        assert(all.take(i + 1).drop_last() =~= all.take(i as int));
        assert(all.take(i + 1).last() == images@[i as int]@);
        let ghost before = r@;
        r.append("            <p>\n              <image width=\"");
        r.append(number(images[i].width as u64).as_str());
        r.append("\" Type=\"image/png\" Encoding=\"base64\">");
        r.append(images[i].data.as_str());
        r.append("</image>\n            </p>\n");
        assert(r@ =~= before + image_block(all[i as int]));
        i = i + 1;
    }
    assert(all.take(images@.len() as int) =~= all);
    r
}

pub fn inject_into_item(item_xml: &str, images: &Vec<&InlinePng>) -> (r: String)
    ensures
        r@ == item_with(item_xml@, Seq::new(images@.len(), |i: int| images@[i]@)),
{
    if images.len() == 0 {
        return item_xml.to_owned();
    }
    let blocks = blocks_of(images);
    let v = chars(item_xml);
    let text_end = chars("</Text>");
    let outline = chars("<OutlineText>");
    let empty = chars("<OutlineText/>");
    if let Some(n) = next_match(&v, &text_end, 0) {
        let mut r = slice(&v, 0, n);
        let rest = slice(&v, n, v.len());
        assert(r@ =~= item_xml@.take(n as int));
        assert(rest@ =~= item_xml@.skip(n as int));
        r.append(blocks.as_str());
        r.append(rest.as_str());
        return r;
    }
    let at = match next_match(&v, &outline, 0) {
        Some(n) => Some(n),
        None => next_match(&v, &empty, 0),
    };
    if let Some(n) = at {
        let mut r = slice(&v, 0, n);
        let rest = slice(&v, n, v.len());
        assert(r@ =~= item_xml@.take(n as int));
        assert(rest@ =~= item_xml@.skip(n as int));
        r.append("        <DetailTxt>\n          <Text>\n");
        r.append(blocks.as_str());
        r.append("          </Text>\n        </DetailTxt>\n        ");
        r.append(rest.as_str());
        return r;
    }
    item_xml.to_owned()
}

fn own_images<'a>(images: &'a Vec<InlinePng>, places: &Vec<PositionRef>, k: usize) -> (r: Vec<
    &'a InlinePng,
>)
    ensures
        Seq::new(r@.len(), |i: int| r@[i]@) == images_for(
            image_views(images@),
            place_views(places@),
            k as nat,
        ),
        r@.len() <= images@.len(),
{
    let ghost all = image_views(images@);
    let ghost where_to = place_views(places@);
    let mut r: Vec<&'a InlinePng> = Vec::new();
    let mut i: usize = 0;
    assert(Seq::new(r@.len(), |j: int| r@[j]@) =~= images_for(all.take(0), where_to, k as nat));
    while i < images.len()
        invariant
            i <= images@.len(),
            r@.len() <= i,
            all == image_views(images@),
            where_to == place_views(places@),
            Seq::new(r@.len(), |j: int| r@[j]@) == images_for(
                all.take(i as int),
                where_to,
                k as nat,
            ),
        decreases images@.len() - i,
    {
        assert(all.take(i + 1).drop_last() =~= all.take(i as int));
        assert(all.take(i + 1).last() == images@[i as int]@);
        let ghost before = Seq::new(r@.len(), |j: int| r@[j]@);
        if let Some(at) = best_position_index(&images[i], places) {
            if at == k {
                r.push(&images[i]);
                assert(Seq::new(r@.len(), |j: int| r@[j]@) =~= before.push(images@[i as int]@));
            }
        }
        i = i + 1;
    }
    assert(all.take(images@.len() as int) =~= all);
    r
}

pub open spec fn injection_outcome(r: Result<(String, usize), Error>) -> Result<
    (Seq<char>, nat),
    Seq<char>,
> {
    match r {
        Ok((text, count)) => Ok((text@, count as nat)),
        Err(error) => Err(error@),
    }
}

/// Of the images, those that belong to one of the first `k` places.
spec fn used(images: Seq<InlinePngView>, places: Seq<PositionRefView>, k: nat) -> nat
    decreases k,
{
    if k == 0 {
        0
    } else {
        used(images, places, (k - 1) as nat) + images_for(images, places, (k - 1) as nat).len()
    }
}

proof fn lemma_used_last(images: Seq<InlinePngView>, places: Seq<PositionRefView>, k: nat)
    requires
        images.len() > 0,
    ensures
        used(images, places, k) == used(images.drop_last(), places, k) + (match place_for(
            images.last(),
            places,
        ) {
            Some(n) => if n < k && n < places.len() {
                1int
            } else {
                0int
            },
            None => 0int,
        }),
    decreases k,
{
    if k > 0 {
        lemma_used_last(images, places, (k - 1) as nat);
    }
}

proof fn lemma_used(images: Seq<InlinePngView>, places: Seq<PositionRefView>, k: nat)
    ensures
        used(images, places, k) <= images.len(),
    decreases images.len(),
{
    if images.len() > 0 {
        lemma_used(images.drop_last(), places, k);
        lemma_used_last(images, places, k);
    } else {
        lemma_used_none(images, places, k);
    }
}

proof fn lemma_used_none(images: Seq<InlinePngView>, places: Seq<PositionRefView>, k: nat)
    requires
        images.len() == 0,
    ensures
        used(images, places, k) == 0,
    decreases k,
{
    if k > 0 {
        lemma_used_none(images, places, (k - 1) as nat);
    }
}

pub fn inject_images_into_items(
    xml: &str,
    images: &Vec<InlinePng>,
    positions: &Vec<PositionRef>,
) -> (r: Result<(String, usize), Error>)
    ensures
        injection_outcome(r) == with_images(
            xml@,
            0,
            0,
            image_views(images@),
            place_views(positions@),
        ),
{
    proof {
        reveal_strlit("</Item>");
    }
    let ghost pictures = image_views(images@);
    let ghost places = place_views(positions@);
    let v = chars(xml);
    let opening = chars("<Item ");
    let closing = chars("</Item>");
    let total: usize = v.len();
    let given: usize = images.len();
    let mut result = String::new();
    let mut cursor: usize = 0;
    let mut k: usize = 0;
    let mut embedded: usize = 0;
    let ghost whole = with_images(xml@, 0, 0, pictures, places);
    loop
        invariant
            v@ == xml@,
            opening@ == "<Item "@,
            closing@ == "</Item>"@,
            closing@.len() == 7,
            pictures == image_views(images@),
            places == place_views(positions@),
            total == v@.len(),
            given == images@.len(),
            cursor <= v@.len(),
            k <= cursor,
            embedded == used(pictures, places, k as nat),
            whole == with_images(xml@, 0, 0, pictures, places),
            whole == (match with_images(xml@, cursor as nat, k as nat, pictures, places) {
                Err(e) => Err(e),
                Ok((rest, count)) => Ok((result@ + rest, (embedded + count) as nat)),
            }),
        decreases v@.len() - cursor,
    {
        assert(total <= usize::MAX && given <= usize::MAX);
        match next_match(&v, &opening, cursor) {
            None => {
                let rest = slice(&v, cursor, v.len());
                assert(rest@ =~= xml@.skip(cursor as int));
                result.append(rest.as_str());
                return Ok((result, embedded));
            },
            Some(start) => {
                match next_match(&v, &closing, start) {
                    None => {
                        return Err(failure("Unvollständiges Item im X83-Dokument"));
                    },
                    Some(close) => {
                        let end: usize = close + closing.len();
                        let ghost before = result@;
                        let head = slice(&v, cursor, start);
                        let item = slice(&v, start, end);
                        let own = own_images(images, positions, k);
                        let changed = inject_into_item(item.as_str(), &own);
                        result.append(head.as_str());
                        result.append(changed.as_str());
                        proof {
                            lemma_used(pictures, places, (k + 1) as nat);
                            assert(image_views(images@).len() == images@.len());
                            let next = with_images(
                                xml@,
                                end as nat,
                                (k + 1) as nat,
                                pictures,
                                places,
                            );
                            if let Ok((rest, count)) = next {
                                assert(before + (head@ + changed@ + rest) =~= result@ + rest);
                            }
                            let ghost_images = images_for(pictures, places, k as nat);
                            assert(own@.len() == ghost_images.len()) by {
                                assert(Seq::new(own@.len(), |i: int| own@[i]@).len() == own@.len());
                            }
                        }
                        embedded = embedded + own.len();
                        cursor = end;
                        k = k + 1;
                    },
                }
            },
        }
    }
}

/// A document with images put into its items, and their number. Without images it stays
/// as it is.
pub open spec fn illustrated(
    xml: Seq<char>,
    images: Seq<InlinePngView>,
    places: Seq<PositionRefView>,
) -> Result<(Seq<char>, nat), Seq<char>> {
    if images.len() == 0 {
        Ok((xml, 0))
    } else {
        with_images(xml, 0, 0, images, places)
    }
}

/// A document with the images of a bill put into its items, and their number.
pub fn inject_pdf_pngs(xml: &str, images: &Vec<InlinePng>, boq: &BillOfQuantities) -> (r: Result<
    (String, usize),
    Error,
>)
    ensures
        injection_outcome(r) == illustrated(xml@, image_views(images@), places_of(boq@)),
{
    assert(image_views(images@).len() == images@.len());
    if images.len() == 0 {
        return Ok((xml.to_owned(), 0));
    }
    let positions = flatten_positions(boq);
    inject_images_into_items(xml, images, &positions)
}

/// Without images a document stays as it is.
pub proof fn law_no_images(xml: Seq<char>, places: Seq<PositionRefView>)
    ensures
        illustrated(xml, seq![], places) == Ok::<(Seq<char>, nat), Seq<char>>((xml, 0)),
{
}

/// The number of a sign of base 64.
pub open spec fn base64_number(c: char) -> int {
    if 'A' <= c <= 'Z' {
        c as int - 'A' as int
    } else if 'a' <= c <= 'z' {
        c as int - 'a' as int + 26
    } else if '0' <= c <= '9' {
        c as int - '0' as int + 52
    } else if c == '+' {
        62
    } else {
        63
    }
}

/// The bytes that a text in base 64 stands for, with padding at its end.
pub open spec fn from_base64(s: Seq<char>) -> Seq<u8>
    decreases s.len(),
{
    if s.len() < 4 {
        seq![]
    } else {
        let n = base64_number(s[0]) * 262144 + base64_number(s[1]) * 4096 + (if s[2] == '=' {
            0
        } else {
            base64_number(s[2]) * 64
        }) + (if s[3] == '=' {
            0
        } else {
            base64_number(s[3])
        });
        let bytes = seq![(n / 65536) as u8, (n / 256 % 256) as u8, (n % 256) as u8];
        if s[2] == '=' {
            bytes.take(1)
        } else if s[3] == '=' {
            bytes.take(2)
        } else {
            bytes + from_base64(s.skip(4))
        }
    }
}

proof fn lemma_sign(n: int)
    requires
        0 <= n < 64,
    ensures
        base64_number(base64_sign(n)) == n,
        base64_sign(n) != '=',
{
    reveal_strlit("ABCDEFGHIJKLMNOPQRSTUVWXYZabcdefghijklmnopqrstuvwxyz0123456789+/");
}

proof fn lemma_four_signs(x: int, y: int, z: int)
    requires
        0 <= x < 256,
        0 <= y < 256,
        0 <= z < 256,
    ensures
        ({
            let n = x * 65536 + y * 256 + z;
            &&& 0 <= n / 262144 < 64
            &&& 0 <= n / 4096 % 64 < 64
            &&& 0 <= n / 64 % 64 < 64
            &&& 0 <= n % 64 < 64
            &&& n / 262144 * 262144 + n / 4096 % 64 * 4096 + n / 64 % 64 * 64 + n % 64 == n
            &&& n / 65536 == x
            &&& n / 256 % 256 == y
            &&& n % 256 == z
            &&& y == 0 && z == 0 ==> n / 64 % 64 == 0 && n % 64 == 0
            &&& z == 0 ==> n % 64 == 0
        }),
{
    let n = x * 65536 + y * 256 + z;
    let a = x / 4;
    let b = x % 4;
    let c = y / 16;
    let d = y % 16;
    let e = z / 64;
    let f = z % 64;
    assert(x == 4 * a + b && y == 16 * c + d && z == 64 * e + f);
    assert(0 <= a < 64 && 0 <= b < 4 && 0 <= c < 16 && 0 <= d < 16 && 0 <= e < 4 && 0 <= f < 64);
    let second = b * 16 + c;
    let third = d * 4 + e;
    assert(n == a * 262144 + second * 4096 + third * 64 + f);
    lemma_fundamental_div_mod_converse(n, 262144, a, second * 4096 + third * 64 + f);
    lemma_fundamental_div_mod_converse(n, 4096, a * 64 + second, third * 64 + f);
    lemma_fundamental_div_mod_converse(a * 64 + second, 64, a, second);
    lemma_fundamental_div_mod_converse(n, 64, a * 4096 + second * 64 + third, f);
    lemma_fundamental_div_mod_converse(
        a * 4096 + second * 64 + third,
        64,
        a * 64 + second,
        third,
    );
    lemma_fundamental_div_mod_converse(n, 65536, x, y * 256 + z);
    lemma_fundamental_div_mod_converse(n, 256, x * 256 + y, z);
    lemma_fundamental_div_mod_converse(x * 256 + y, 256, x, y);
}

/// What a text in base 64 stands for are the bytes that it was made from.
pub proof fn law_base64_reads_back(b: Seq<u8>)
    ensures
        from_base64(base64(b)) == b,
    decreases b.len(),
{
    if b.len() > 0 {
        let x = b[0] as int;
        let y = if b.len() > 1 {
            b[1] as int
        } else {
            0
        };
        let z = if b.len() > 2 {
            b[2] as int
        } else {
            0
        };
        let n = x * 65536 + y * 256 + z;
        lemma_four_signs(x, y, z);
        lemma_sign(n / 262144);
        lemma_sign(n / 4096 % 64);
        lemma_sign(n / 64 % 64);
        lemma_sign(n % 64);
        let s = base64(b);
        assert(s.len() >= 4);
        assert(s[0] == base64_sign(n / 262144));
        assert(s[1] == base64_sign(n / 4096 % 64));
        if b.len() == 1 {
            assert(s[2] == '=');
            assert(s[3] == '=');
            lemma_first_bytes(s, n);
            assert(from_base64(s) =~= b);
        } else if b.len() == 2 {
            assert(s[2] == base64_sign(n / 64 % 64));
            assert(s[3] == '=');
            lemma_first_bytes(s, n);
            assert(from_base64(s) =~= b);
        } else {
            assert(s[2] == base64_sign(n / 64 % 64));
            assert(s[3] == base64_sign(n % 64));
            lemma_first_bytes(s, n);
            law_base64_reads_back(b.skip(3));
            assert(s.skip(4) =~= base64(b.skip(3)));
            assert(b =~= seq![b[0], b[1], b[2]] + b.skip(3));
        }
    }
}

/// The first bytes that a text in base 64 stands for.
proof fn lemma_first_bytes(s: Seq<char>, n: int)
    requires
        s.len() >= 4,
        0 <= n < 16777216,
        n == base64_number(s[0]) * 262144 + base64_number(s[1]) * 4096 + (if s[2] == '=' {
            0
        } else {
            base64_number(s[2]) * 64
        }) + (if s[3] == '=' {
            0
        } else {
            base64_number(s[3])
        }),
    ensures
        ({
            let bytes = seq![(n / 65536) as u8, (n / 256 % 256) as u8, (n % 256) as u8];
            &&& s[2] == '=' ==> from_base64(s) == bytes.take(1)
            &&& s[2] != '=' && s[3] == '=' ==> from_base64(s) == bytes.take(2)
            &&& s[2] != '=' && s[3] != '=' ==> from_base64(s) == bytes + from_base64(s.skip(4))
        }),
{
}

proof fn lemma_closest(v: Seq<PositionRefView>, page: nat, oz: Option<Seq<char>>, n: nat)
    requires
        n <= v.len(),
    ensures
        ({
            let r = closest(v, page, oz, n);
            &&& r is Some ==> r->0 < n && meant(v[r->0 as int], page, oz)
            &&& r is Some ==> forall|i: int|
                0 <= i < n && meant(#[trigger] v[i], page, oz) ==> !closer(v[i], v[r->0 as int])
            &&& r is None ==> forall|i: int| 0 <= i < n ==> !meant(#[trigger] v[i], page, oz)
        }),
    decreases n,
{
    if n > 0 {
        lemma_closest(v, page, oz, (n - 1) as nat);
    }
}

proof fn lemma_first_with(v: Seq<PositionRefView>, oz: Seq<char>, n: nat)
    requires
        n <= v.len(),
    ensures
        ({
            let r = first_with(v, oz, n);
            &&& r is Some ==> n <= r->0 < v.len() && v[r->0 as int].oz == oz
            &&& r is None ==> forall|i: int| n <= i < v.len() ==> (#[trigger] v[i]).oz != oz
        }),
    decreases v.len() - n,
{
    if n < v.len() && v[n as int].oz != oz {
        lemma_first_with(v, oz, n + 1);
    }
}

/// An image under the number of a position goes to a position of that number, to one on
/// its page where there is one. An image without a number, or under one that no position
/// has, goes to a position on whose pages it stands: one that covers fewer pages than the
/// others, and of these one that starts later. It goes nowhere only where no position can
/// be meant.
pub proof fn law_image_placed(image: InlinePngView, v: Seq<PositionRefView>)
    ensures
        ({
            let r = place_for(image, v);
            let named = image.target_oz is Some && exists|i: int|
                0 <= i < v.len() && (#[trigger] v[i]).oz == image.target_oz->0;
            &&& r is Some ==> r->0 < v.len()
            &&& named ==> r is Some && v[r->0 as int].oz == image.target_oz->0
            &&& named && (exists|i: int|
                0 <= i < v.len() && (#[trigger] v[i]).oz == image.target_oz->0 && v[i].page_from
                    <= image.page <= v[i].page_to) ==> v[r->0 as int].page_from <= image.page
                <= v[r->0 as int].page_to
            &&& !named && r is Some ==> v[r->0 as int].page_from <= image.page
                <= v[r->0 as int].page_to
            &&& !named && r is Some ==> forall|i: int|
                0 <= i < v.len() && (#[trigger] v[i]).page_from <= image.page <= v[i].page_to ==> {
                    let best = v[r->0 as int];
                    let here = v[i].page_to - v[i].page_from;
                    let there = best.page_to - best.page_from;
                    there < here || (there == here && best.page_from >= v[i].page_from)
                }
            &&& r is None ==> forall|i: int|
                0 <= i < v.len() ==> !((#[trigger] v[i]).page_from <= image.page <= v[i].page_to)
                    && (image.target_oz is Some ==> v[i].oz != image.target_oz->0)
        }),
{
    lemma_closest(v, image.page, None, v.len());
    if let Some(oz) = image.target_oz {
        lemma_closest(v, image.page, Some(oz), v.len());
        lemma_first_with(v, oz, 0);
        if closest(v, image.page, Some(oz), v.len()) is None && first_with(v, oz, 0) is None {
            assert(forall|i: int| 0 <= i < v.len() ==> (#[trigger] v[i]).oz != oz);
        }
    }
    let none = None::<Seq<char>>;
    if place_for(image, v) is None {
        assert forall|i: int| 0 <= i < v.len() implies !((#[trigger] v[i]).page_from <= image.page
            <= v[i].page_to) by {
            assert(!meant(v[i], image.page, none));
        }
    }
    let named = image.target_oz is Some && exists|i: int|
        0 <= i < v.len() && (#[trigger] v[i]).oz == image.target_oz->0;
    if !named && place_for(image, v) is Some {
        let best = v[place_for(image, v)->0 as int];
        assert forall|i: int|
            0 <= i < v.len() && (#[trigger] v[i]).page_from <= image.page <= v[i].page_to implies {
            let here = v[i].page_to - v[i].page_from;
            let there = best.page_to - best.page_from;
            there < here || (there == here && best.page_from >= v[i].page_from)
        } by {
            assert(meant(v[i], image.page, none));
            assert(!closer(v[i], best));
        }
    }
}

/// An item with images is the item with something put in at one place: the paragraphs of
/// its images in their order, each with the width and the data of the image, right in front
/// of the end of its text where it has one.
pub proof fn law_item_keeps_its_text(item: Seq<char>, images: Seq<InlinePngView>)
    ensures
        exists|at: int, added: Seq<char>| #![trigger item.take(at), item.skip(at), added.len()]
            0 <= at <= item.len() && item_with(item, images) == item.take(at) + added + item.skip(at)
                && (find_from(item, "</Text>"@, 0) is Some ==> added == image_blocks(images)
                && at == find_from(item, "</Text>"@, 0)->0),
{
    let blocks = image_blocks(images);
    lemma_find_from(item, "</Text>"@, 0);
    lemma_find_from(item, "<OutlineText>"@, 0);
    lemma_find_from(item, "<OutlineText/>"@, 0);
    let nothing = Seq::<char>::empty();
    if images.len() == 0 {
        let at = match find_from(item, "</Text>"@, 0) {
            Some(n) => n as int,
            None => 0,
        };
        assert(blocks =~= nothing);
        assert(item =~= item.take(at) + nothing + item.skip(at));
        assert(nothing.len() == 0);
    } else {
        match find_from(item, "</Text>"@, 0) {
            Some(n) => {
                assert(item_with(item, images) == item.take(n as int) + blocks + item.skip(
                    n as int,
                ));
                assert(blocks.len() >= 0);
            },
            None => match outline_at(item) {
                Some(n) => {
                    let added = "        <DetailTxt>\n          <Text>\n"@ + blocks
                        + "          </Text>\n        </DetailTxt>\n        "@;
                    assert(item_with(item, images) =~= item.take(n as int) + added + item.skip(
                        n as int,
                    ));
                    assert(added.len() >= 0);
                },
                None => {
                    assert(item =~= item.take(0) + nothing + item.skip(0));
                    assert(nothing.len() == 0);
                },
            },
        }
    }
}

} // verus!
