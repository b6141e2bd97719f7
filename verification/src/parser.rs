//! Reading a bill of quantities from the text of a printed document.

use crate::decimal::{dec, multiplied, read_number, subtracted, Dec, Decimal};
use crate::document::{failure, Error};
use crate::gaeb2000::{behind, byte_slice, bytes_between, strip_prefix};
use crate::model::{
    empty_boq, empty_node, empty_position, group_model_views, node_views, BillOfQuantities, BoqView,
    Node, NodeView, Position, PositionView,
};
use crate::outline::{heading_index, lemma_heading_index, lemma_split_len};
use crate::patterns::{
    captured, captured_text, first_match, group, group_text, groups, is_matched, opt_groups, Found,
    FoundView, Pattern, FOOTER, HEADING, POSITION_START, PRICED_DATA, SIX_PART_PROFILE, SUM, TRAILING_QUANTITY,
};
use crate::text::{
    contains, has, join, joined, lemma_texts_push, lines, listed, normalize_line, parse_unsigned,
    parts, replace, replaced, same, single_spaced, split, split_lines, starts_with, texts, trim,
    trimmed, unsigned_in,
};
use crate::tree::{positions, positions_of, ref_views};
use vstd::prelude::*;
use vstd::utf8::encode_utf8;

verus! {

/// A number with points between thousands and a decimal comma, if there is one.
pub open spec fn german_number(value: Option<Seq<char>>) -> Option<Dec> {
    match value {
        Some(s) => read_number(replace(replace(s, "."@, ""@), ","@, "."@)),
        None => None,
    }
}

pub fn parse_decimal(value: Option<&str>) -> (r: Option<Decimal>)
    ensures
        dec(r) == german_number(
            match value {
                Some(s) => Some(s@),
                None => None,
            },
        ),
{
    proof {
        reveal_strlit(".");
        reveal_strlit(",");
    }
    match value {
        Some(s) => {
            let s = replaced(s, ".", "");
            let s = replaced(s.as_str(), ",", ".");
            Decimal::parse(s.as_str())
        },
        None => None,
    }
}

fn captured_number(g: &Vec<Option<Found>>, i: usize) -> (r: Option<Decimal>)
    ensures
        dec(r) == german_number(group(groups(g@), i as int)),
{
    match captured(g, i) {
        Some(s) => parse_decimal(Some(s.as_str())),
        None => parse_decimal(None),
    }
}

/// The length of a text in bytes.
pub open spec fn size(s: Seq<char>) -> nat {
    encode_utf8(s).len()
}

fn byte_len(s: &str) -> (r: usize)
    ensures
        r == size(s@),
{
    s.as_bytes().len()
}

/// Whether the parts of a number could be a date: day, month and a year of four digits.
pub open spec fn date_like(p: Seq<Seq<char>>) -> bool {
    let limit = u32::MAX as nat;
    &&& p.len() == 3
    &&& size(p[2]) == 4
    &&& unsigned_in(p[0], limit) is Some
    &&& unsigned_in(p[1], limit) is Some
    &&& unsigned_in(p[2], limit) is Some
    &&& 1 <= unsigned_in(p[0], limit)->0 <= 31
    &&& 1 <= unsigned_in(p[1], limit)->0 <= 12
    &&& 1900 <= unsigned_in(p[2], limit)->0 <= 2100
}

pub fn is_date_like_oz(components: &Vec<String>) -> (r: bool)
    ensures
        r == date_like(texts(components@)),
{
    assert(components@.len() == texts(components@).len());
    if components.len() != 3 {
        return false;
    }
    assert(texts(components@)[0] == components@[0]@);
    assert(texts(components@)[1] == components@[1]@);
    assert(texts(components@)[2] == components@[2]@);
    if byte_len(components[2].as_str()) != 4 {
        return false;
    }
    let day = parse_unsigned(components[0].as_str(), u32::MAX as u64);
    let month = parse_unsigned(components[1].as_str(), u32::MAX as u64);
    let year = parse_unsigned(components[2].as_str(), u32::MAX as u64);
    match (day, month, year) {
        (Some(day), Some(month), Some(year)) => 1 <= day && day <= 31 && 1 <= month && month <= 12
            && 1900 <= year && year <= 2100,
        _ => false,
    }
}

/// Whether a number at the start of a line is the ordinal number of a position.
pub open spec fn position_number(oz: Seq<char>, trailing: bool, six_parts: bool) -> bool {
    let p = split(oz, '.');
    if date_like(p) {
        false
    } else if six_parts {
        p.len() == 6
    } else if p.len() == 3 {
        trailing || size(p[2]) >= 3
    } else if p.len() == 4 {
        size(p[3]) >= 3
    } else {
        p.len() == 6
    }
}

pub fn is_position_oz(oz: &str, trailing: bool, six_part_profile: bool) -> (r: bool)
    ensures
        r == position_number(oz@, trailing, six_part_profile),
{
    let p = parts(oz, '.');
    assert(p@.len() == texts(p@).len());
    if is_date_like_oz(&p) {
        return false;
    }
    if six_part_profile {
        return p.len() == 6;
    }
    if p.len() == 3 {
        assert(texts(p@)[2] == p@[2]@);
        trailing || byte_len(p[2].as_str()) >= 3
    } else if p.len() == 4 {
        assert(texts(p@)[3] == p@[3]@);
        byte_len(p[3].as_str()) >= 3
    } else {
        p.len() == 6
    }
}

/// Whether a number at the start of a line belongs to a heading.
pub open spec fn heading_number(oz: Seq<char>, trailing: bool, position_active: bool) -> bool {
    let p = split(oz, '.');
    &&& !(position_active && p.len() == 1)
    &&& if trailing {
        forall|i: int| 0 <= i < p.len() ==> size(#[trigger] p[i]) <= 2
    } else {
        p.len() <= 3 && forall|i: int| 0 <= i < p.len() ==> size(#[trigger] p[i]) == 2
    }
}

pub fn is_heading_oz(oz: &str, trailing: bool, position_active: bool) -> (r: bool)
    ensures
        r == heading_number(oz@, trailing, position_active),
{
    let p = parts(oz, '.');
    let ghost all = split(oz@, '.');
    assert(p@.len() == texts(p@).len());
    if position_active && p.len() == 1 {
        return false;
    }
    if !trailing && p.len() > 3 {
        return false;
    }
    let mut i: usize = 0;
    while i < p.len()
        invariant
            i <= p@.len(),
            p@.len() == all.len(),
            all == split(oz@, '.'),
            all == texts(p@),
            trailing ==> forall|j: int| 0 <= j < i ==> size(#[trigger] all[j]) <= 2,
            !trailing ==> forall|j: int| 0 <= j < i ==> size(#[trigger] all[j]) == 2,
        decreases p@.len() - i,
    {
        assert(all[i as int] == p@[i as int]@);
        let n = byte_len(p[i].as_str());
        if n > 2 || (!trailing && n != 2) {
            assert(!(size(all[i as int]) <= 2) || (!trailing && size(all[i as int]) != 2));
            return false;
        }
        i = i + 1;
    }
    true
}

/// The remark that only a unit price is asked for.
pub open spec fn unit_price_only() -> Seq<char> {
    "Nur Einh.-Pr."@
}

/// A position with the quantity, unit and prices of a price line.
pub open spec fn priced(p: PositionView, g: Seq<Option<FoundView>>, source: Seq<char>) -> PositionView {
    PositionView {
        quantity: german_number(group(g, 1)),
        unit: group(g, 2),
        unit_price: german_number(group(g, 3)),
        total_price: german_number(group(g, 4)),
        provisional: p.provisional || contains(source, unit_price_only()),
        price_only: p.price_only || contains(source, unit_price_only()),
        ..p
    }
}

pub fn apply_price_captures(position: &mut Position, caps: &Vec<Option<Found>>, source: &str)
    ensures
        final(position)@ == priced(old(position)@, groups(caps@), source@),
{
    position.quantity = captured_number(caps, 1);
    position.unit = captured(caps, 2);
    position.unit_price = captured_number(caps, 3);
    position.total_price = captured_number(caps, 4);
    if has(source, "Nur Einh.-Pr.") {
        position.provisional = true;
        position.price_only = true;
    }
}

/// A position and the lines that are collected for it.
#[verifier::ext_equal]
pub struct Gathered {
    pub position: PositionView,
    pub lines: Seq<Seq<char>>,
}

/// The price line that the first `count` lines run together are, taken from them.
pub open spec fn price_taken(v: Gathered, count: nat, g: Seq<Option<FoundView>>) -> Gathered {
    Gathered {
        position: priced(v.position, g, join(v.lines.take(count as int), " "@)),
        lines: v.lines.skip(count as int),
    }
}

/// Takes a price line from the first `count` lines, given its groups.
pub fn take_price(
    position: &mut Position,
    lines: &mut Vec<String>,
    count: usize,
    caps: &Vec<Option<Found>>,
)
    requires
        count <= old(lines)@.len(),
    ensures
        (Gathered { position: final(position)@, lines: texts(final(lines)@) }) == price_taken(
            Gathered { position: old(position)@, lines: texts(old(lines)@) },
            count as nat,
            groups(caps@),
        ),
{
    let head = vstd::slice::slice_subrange(lines.as_slice(), 0, count);
    assert(texts(head@) =~= texts(lines@).take(count as int));
    let candidate = joined(head, " ");
    apply_price_captures(position, caps, candidate.as_str());
    let mut rest: Vec<String> = Vec::new();
    let ghost all = texts(lines@);
    let mut i: usize = count;
    while i < lines.len()
        invariant
            count <= i <= lines@.len(),
            all == texts(lines@),
            texts(rest@) == all.subrange(count as int, i as int),
        decreases lines@.len() - i,
    {
        broadcast use lemma_texts_push;
        rest.push(lines[i].clone());
        assert(all.subrange(count as int, i + 1) =~= all.subrange(count as int, i as int).push(
            all[i as int],
        ));
        i = i + 1;
    }
    assert(texts(rest@) =~= all.skip(count as int));
    *lines = rest;
}

/// The price line looked for in the first `count` lines run together, then in fewer.
pub open spec fn leading_price(v: Gathered, count: nat) -> Gathered
    decreases count,
{
    let candidate = join(v.lines.take(count as int), " "@);
    if count == 0 {
        v
    } else {
        match first_match(PRICED_DATA@, candidate) {
            Some(g) => price_taken(v, count, g),
            None => leading_price(v, (count - 1) as nat),
        }
    }
}

/// The price line taken from the front of the lines, at most four of them, the longest
/// that matches.
pub open spec fn with_leading_price(v: Gathered) -> Gathered {
    if v.position.quantity is Some {
        v
    } else {
        leading_price(
            v,
            if v.lines.len() < 4 {
                v.lines.len()
            } else {
                4
            },
        )
    }
}

pub fn extract_leading_multiline_price(
    pattern: &Pattern,
    position: &mut Position,
    lines: &mut Vec<String>,
)
    requires
        pattern@ == PRICED_DATA@,
    ensures
        (Gathered { position: final(position)@, lines: texts(final(lines)@) })
            == with_leading_price(Gathered { position: old(position)@, lines: texts(old(lines)@) }),
{
    if position.quantity.is_some() {
        return;
    }
    let ghost start = Gathered { position: position@, lines: texts(lines@) };
    assert(lines@.len() == texts(lines@).len());
    let mut count: usize = if lines.len() < 4 {
        lines.len()
    } else {
        4
    };
    while count > 0
        invariant
            pattern@ == PRICED_DATA@,
            count <= lines@.len(),
            start == (Gathered { position: position@, lines: texts(lines@) }),
            with_leading_price(start) == leading_price(start, count as nat),
            start == (Gathered { position: old(position)@, lines: texts(old(lines)@) }),
        decreases count,
    {
        let head = vstd::slice::slice_subrange(lines.as_slice(), 0, count);
        assert(texts(head@) =~= texts(lines@).take(count as int));
        let candidate = joined(head, " ");
        if let Some(caps) = pattern.first(candidate.as_str()) {
            take_price(position, lines, count, &caps);
            return;
        }
        count = count - 1;
    }
}

/// The first line, from `n` on, that ends in a quantity.
pub open spec fn quantity_line(all: Seq<Seq<char>>, n: nat) -> Option<nat>
    decreases all.len() - n,
{
    if n >= all.len() {
        None
    } else if first_match(TRAILING_QUANTITY@, all[n as int]) is Some {
        Some(n)
    } else {
        quantity_line(all, n + 1)
    }
}

/// Where the whole match of a pattern starts.
pub open spec fn match_start(g: Seq<Option<FoundView>>) -> Option<nat> {
    if g.len() > 0 && g[0] is Some {
        Some(g[0]->0.start)
    } else {
        None
    }
}

/// What stands in front of a match, without white space at its ends.
pub open spec fn in_front(line: Seq<char>, g: Seq<Option<FoundView>>) -> Seq<char> {
    match match_start(g) {
        Some(start) => trim(byte_slice(line, 0, start as int)),
        None => seq![],
    }
}

/// The quantity, unit and prices at the end of a line, taken from it; what stands in front
/// of them is kept.
pub open spec fn quantity_taken(v: Gathered, index: nat, g: Seq<Option<FoundView>>) -> Gathered {
    let rest = in_front(v.lines[index as int], g);
    Gathered {
        position: PositionView {
            quantity: german_number(group(g, 1)),
            unit: group(g, 2),
            unit_price: german_number(group(g, 3)),
            total_price: german_number(group(g, 4)),
            provisional: v.position.provisional || group(g, 5) is Some,
            price_only: v.position.price_only || group(g, 5) is Some,
            ..v.position
        },
        lines: if rest.len() == 0 {
            v.lines.remove(index as int)
        } else {
            v.lines.update(index as int, rest)
        },
    }
}

/// The quantity, unit and prices taken from the first line that ends in them.
pub open spec fn with_trailing_quantity(v: Gathered) -> Gathered {
    if v.position.quantity is Some {
        v
    } else {
        match quantity_line(v.lines, 0) {
            None => v,
            Some(index) => quantity_taken(
                v,
                index,
                first_match(TRAILING_QUANTITY@, v.lines[index as int])->0,
            ),
        }
    }
}

fn front_of(line: &str, caps: &Vec<Option<Found>>) -> (r: String)
    ensures
        r@ == in_front(line@, groups(caps@)),
{
    if caps.len() > 0 {
        match &caps[0] {
            Some(f) => trimmed(bytes_between(line, 0, f.start).as_str()),
            None => String::new(),
        }
    } else {
        String::new()
    }
}

/// Takes a quantity, unit and prices from the end of a line, given their groups.
pub fn take_quantity(
    position: &mut Position,
    lines: &mut Vec<String>,
    index: usize,
    caps: &Vec<Option<Found>>,
)
    requires
        index < old(lines)@.len(),
    ensures
        (Gathered { position: final(position)@, lines: texts(final(lines)@) }) == quantity_taken(
            Gathered { position: old(position)@, lines: texts(old(lines)@) },
            index as nat,
            groups(caps@),
        ),
{
    let ghost all = texts(lines@);
    assert(all[index as int] == lines@[index as int]@);
    position.quantity = captured_number(caps, 1);
    position.unit = captured(caps, 2);
    position.unit_price = captured_number(caps, 3);
    position.total_price = captured_number(caps, 4);
    if captured(caps, 5).is_some() {
        position.provisional = true;
        position.price_only = true;
    }
    let rest = front_of(lines[index].as_str(), caps);
    if rest.as_str().is_empty() {
        lines.remove(index);
        assert(texts(lines@) =~= all.remove(index as int));
    } else {
        lines.set(index, rest);
        assert(texts(lines@) =~= all.update(index as int, rest@));
    }
}

pub fn extract_trailing_quantity(
    pattern: &Pattern,
    position: &mut Position,
    lines: &mut Vec<String>,
)
    requires
        pattern@ == TRAILING_QUANTITY@,
    ensures
        (Gathered { position: final(position)@, lines: texts(final(lines)@) })
            == with_trailing_quantity(
            Gathered { position: old(position)@, lines: texts(old(lines)@) },
        ),
{
    if position.quantity.is_some() {
        return;
    }
    let ghost all = texts(lines@);
    assert(lines@.len() == all.len());
    let ghost start = Gathered { position: position@, lines: all };
    let mut i: usize = 0;
    while i < lines.len()
        invariant
            pattern@ == TRAILING_QUANTITY@,
            i <= lines@.len(),
            all == texts(lines@),
            position.quantity is None,
            start == (Gathered { position: position@, lines: all }),
            start == (Gathered { position: old(position)@, lines: texts(old(lines)@) }),
            quantity_line(all, 0) == quantity_line(all, i as nat),
        decreases lines@.len() - i,
    {
        assert(all[i as int] == lines@[i as int]@);
        if let Some(caps) = pattern.first(lines[i].as_str()) {
            take_quantity(position, lines, i, &caps);
            return;
        }
        i = i + 1;
    }
}

/// What a heading is that was read, with the page on which it stands.
#[verifier::ext_equal]
pub struct HeadingView {
    pub oz: Seq<char>,
    pub title: Seq<char>,
    pub page: usize,
}

/// A heading that was read, with the page on which it stands.
pub struct Heading {
    pub oz: String,
    pub title: String,
    pub page: usize,
}

impl View for Heading {
    type V = HeadingView;

    open spec fn view(&self) -> HeadingView {
        HeadingView { oz: self.oz@, title: self.title@, page: self.page }
    }
}

pub open spec fn heading_views(v: Seq<Heading>) -> Seq<HeadingView> {
    Seq::new(v.len(), |i: int| v[i]@)
}

/// The heading with this ordinal number; the last one read counts.
pub open spec fn heading_of(headings: Seq<HeadingView>, oz: Seq<char>) -> Option<HeadingView>
    decreases headings.len(),
{
    if headings.len() == 0 {
        None
    } else if headings.last().oz == oz {
        Some(headings.last())
    } else {
        heading_of(headings.drop_last(), oz)
    }
}

fn find_heading<'a>(headings: &'a Vec<Heading>, oz: &str) -> (r: Option<&'a Heading>)
    ensures
        (match r {
            Some(h) => heading_of(heading_views(headings@), oz@) == Some(h@),
            None => heading_of(heading_views(headings@), oz@) is None,
        }),
{
    let ghost all = heading_views(headings@);
    let mut i: usize = headings.len();
    assert(all.take(all.len() as int) =~= all);
    while i > 0
        invariant
            i <= headings@.len(),
            all == heading_views(headings@),
            heading_of(all, oz@) == heading_of(all.take(i as int), oz@),
        decreases i,
    {
        assert(all.take(i as int).last() == headings@[i - 1]@);
        assert(all.take(i as int).drop_last() =~= all.take(i - 1));
        if same(headings[i - 1].oz.as_str(), oz) {
            return Some(&headings[i - 1]);
        }
        i = i - 1;
    }
    None
}

/// The headings with a new one behind them where none has this ordinal number yet. It
/// gets its title and page from the heading that was read, or else this page.
pub open spec fn with_read_heading(
    nodes: Seq<NodeView>,
    oz: Seq<char>,
    level: nat,
    heading: Option<HeadingView>,
    page: usize,
) -> Seq<NodeView> {
    if heading_index(nodes, oz) < nodes.len() {
        nodes
    } else {
        nodes.push(
            NodeView {
                oz,
                level,
                title: (match heading {
                    Some(h) => h.title,
                    None => seq![],
                }),
                page: Some(
                    (match heading {
                        Some(h) => h.page,
                        None => page,
                    }),
                ),
                ..empty_node()
            },
        )
    }
}

/// A heading without a title gets that of the heading that was read.
pub open spec fn titled(node: NodeView, heading: Option<HeadingView>) -> NodeView {
    match heading {
        Some(h) => if node.title.len() == 0 {
            NodeView { title: h.title, page: Some(h.page), ..node }
        } else {
            node
        },
        None => node,
    }
}

/// The tree with a position added under the heading that a path leads to; headings that
/// are missing on the way are put in.
pub open spec fn filed(
    nodes: Seq<NodeView>,
    path: Seq<Seq<char>>,
    index: nat,
    headings: Seq<HeadingView>,
    page: usize,
    position: PositionView,
) -> Seq<NodeView>
    decreases path.len() - index,
{
    let oz = join(path.take(index as int + 1), "."@);
    let heading = heading_of(headings, oz);
    let at = heading_index(nodes, oz) as int;
    let all = with_read_heading(nodes, oz, index + 1, heading, page);
    let node = titled(all[at], heading);
    if index + 1 >= path.len() {
        all.update(at, NodeView { positions: node.positions.push(position), ..node })
    } else {
        all.update(
            at,
            NodeView {
                children: filed(node.children, path, index + 1, headings, page, position),
                ..node
            },
        )
    }
}

/// Adds a position under the heading that a path leads to.
pub fn ensure_path(
    nodes: &mut Vec<Node>,
    parts: &Vec<String>,
    index: usize,
    headings: &Vec<Heading>,
    fallback_page: usize,
    position: Position,
)
    requires
        index < parts@.len(),
    ensures
        node_views(final(nodes)@) == filed(
            node_views(old(nodes)@),
            texts(parts@),
            index as nat,
            heading_views(headings@),
            fallback_page,
            position@,
        ),
    decreases parts@.len() - index,
{
    broadcast use group_model_views;
    let ghost before = node_views(nodes@);
    let len: usize = parts.len();
    let head = vstd::slice::slice_subrange(parts.as_slice(), 0, index + 1);
    let oz = joined(head, ".");
    assert(texts(head@) =~= texts(parts@).take(index + 1));
    let heading = find_heading(headings, oz.as_str());
    let ghost read = heading_of(heading_views(headings@), oz@);
    let mut at: usize = 0;
    while at < nodes.len() && !same(nodes[at].oz.as_str(), oz.as_str())
        invariant
            at <= nodes@.len(),
            forall|i: int| 0 <= i < at ==> (#[trigger] node_views(nodes@)[i]).oz != oz@,
        decreases nodes@.len() - at,
    {
        broadcast use group_model_views;
        assert(node_views(nodes@)[at as int].oz == nodes@[at as int].oz@);
        at = at + 1;
    }
    proof {
        if at < nodes@.len() {
            assert(node_views(nodes@)[at as int].oz == nodes@[at as int].oz@);
        }
        lemma_heading_index(node_views(nodes@), oz@, at as int);
    }
    if at == nodes.len() {
        let mut node = Node::default();
        node.oz = oz;
        node.level = index + 1;
        match heading {
            Some(h) => {
                node.title = h.title.clone();
                node.page = Some(h.page);
            },
            None => {
                node.page = Some(fallback_page);
            },
        }
        assert(node@ == with_read_heading(before, oz@, (index + 1) as nat, read, fallback_page).last());
        nodes.push(node);
    }
    let ghost all = node_views(nodes@);
    assert(all == with_read_heading(before, oz@, (index + 1) as nat, read, fallback_page));
    let mut node = Node::default();
    std::mem::swap(&mut node, &mut nodes[at]);
    assert(node@ == all[at as int]);
    if let Some(h) = heading {
        if node.title.as_str().is_empty() {
            node.title = h.title.clone();
            node.page = Some(h.page);
        }
    }
    let ghost known = titled(all[at as int], read);
    assert(node@ == known);
    if index + 1 == parts.len() {
        node.positions.push(position);
        assert(node@ =~= NodeView { positions: known.positions.push(position@), ..known });
    } else {
        ensure_path(&mut node.children, parts, index + 1, headings, fallback_page, position);
        assert(node@ =~= NodeView {
            children: filed(
                known.children,
                texts(parts@),
                (index + 1) as nat,
                heading_views(headings@),
                fallback_page,
                position@,
            ),
            ..known
        });
    }
    let ghost node_state = node@;
    nodes.set(at, node);
    assert(node_views(nodes@) =~= all.update(at as int, node_state));
}

/// The tree with the titles and pages of the headings that were read.
pub open spec fn with_heading_titles(nodes: Seq<NodeView>, headings: Seq<HeadingView>) -> Seq<NodeView>
    decreases nodes,
{
    if nodes.len() == 0 {
        seq![]
    } else {
        let node = nodes.last();
        let children = with_heading_titles(node.children, headings);
        with_heading_titles(nodes.drop_last(), headings).push(
            match heading_of(headings, node.oz) {
                Some(h) => NodeView { title: h.title, page: Some(h.page), children, ..node },
                None => NodeView { children, ..node },
            },
        )
    }
}

pub fn apply_heading_titles(nodes: &mut Vec<Node>, headings: &Vec<Heading>)
    ensures
        node_views(final(nodes)@) == with_heading_titles(
            node_views(old(nodes)@),
            heading_views(headings@),
        ),
    decreases *old(nodes),
{
    broadcast use group_model_views;
    let ghost all = node_views(nodes@);
    let ghost start = *nodes;
    let ghost read = heading_views(headings@);
    let len: usize = nodes.len();
    let mut i: usize = 0;
    while i < len
        invariant
            i <= len == nodes@.len() == all.len(),
            all == node_views(start@),
            start == *old(nodes),
            start@.len() == len,
            read == heading_views(headings@),
            node_views(nodes@).take(i as int) == with_heading_titles(all.take(i as int), read),
            forall|j: int| i <= j < len ==> nodes@[j] == start@[j],
        decreases len - i,
    {
        broadcast use group_model_views;
        let ghost here = node_views(nodes@);
        let mut node = Node::default();
        std::mem::swap(&mut node, &mut nodes[i]);
        assert(node == start@[i as int]);
        let ghost before = node@;
        assert(before == all[i as int]);
        if let Some(h) = find_heading(headings, node.oz.as_str()) {
            node.title = h.title.clone();
            node.page = Some(h.page);
        }
        assert(decreases_to!(start => start@[i as int].children));
        apply_heading_titles(&mut node.children, headings);
        let ghost after = node@;
        assert(all.take(i + 1).drop_last() =~= all.take(i as int));
        assert(all.take(i + 1).last() == before);
        nodes.set(i, node);
        assert(node_views(nodes@) =~= here.update(i as int, after));
        assert(node_views(nodes@).take(i + 1) =~= here.take(i as int).push(after));
        i = i + 1;
    }
    assert(all.take(len as int) =~= all);
    assert(node_views(nodes@).take(len as int) =~= node_views(nodes@));
}

/// The lines that are not empty.
pub open spec fn filled_lines(v: Seq<Seq<char>>) -> Seq<Seq<char>>
    decreases v.len(),
{
    if v.len() == 0 {
        seq![]
    } else if v.last().len() == 0 {
        filled_lines(v.drop_last())
    } else {
        filled_lines(v.drop_last()).push(v.last())
    }
}

pub fn without_empty(v: &Vec<String>) -> (r: Vec<String>)
    ensures
        texts(r@) == filled_lines(texts(v@)),
{
    broadcast use lemma_texts_push;
    let ghost all = texts(v@);
    let mut r: Vec<String> = Vec::new();
    let mut i: usize = 0;
    while i < v.len()
        invariant
            i <= v@.len(),
            all == texts(v@),
            texts(r@) == filled_lines(all.take(i as int)),
        decreases v@.len() - i,
    {
        broadcast use lemma_texts_push;
        assert(all.take(i + 1).drop_last() =~= all.take(i as int));
        assert(all.take(i + 1).last() == v@[i as int]@);
        if !v[i].as_str().is_empty() {
            r.push(v[i].clone());
        }
        i = i + 1;
    }
    assert(all.take(v@.len() as int) =~= all);
    r
}

/// The first line is the short text of a position, the others are its long text.
pub open spec fn described(p: PositionView, all: Seq<Seq<char>>) -> PositionView {
    let filled = filled_lines(all);
    if filled.len() == 0 {
        p
    } else {
        PositionView { short_text: filled[0], long_text: join(filled.skip(1), "\n"@), ..p }
    }
}

/// A position that ends on this page, with what its lines say.
pub open spec fn completed(v: Gathered, page_to: usize) -> PositionView {
    let from = match v.position.page_from {
        Some(p) => p,
        None => page_to,
    };
    let ended = PositionView {
        page_to: Some(
            if page_to > from {
                page_to
            } else {
                from
            },
        ),
        ..v.position
    };
    let read = with_trailing_quantity(
        with_leading_price(Gathered { position: ended, lines: v.lines }),
    );
    described(read.position, read.lines)
}

/// The ordinal number of the heading under which a position stands, in its parts.
pub open spec fn path_of(oz: Seq<char>) -> Seq<Seq<char>> {
    split(join(split(oz, '.').drop_last(), "."@), '.')
}

struct Patterns {
    heading: Pattern,
    position_start: Pattern,
    priced_data: Pattern,
    trailing_quantity: Pattern,
    sum: Pattern,
    footer: Pattern,
}

impl Patterns {
    spec fn ready(self) -> bool {
        &&& self.heading@ == HEADING@
        &&& self.position_start@ == POSITION_START@
        &&& self.priced_data@ == PRICED_DATA@
        &&& self.trailing_quantity@ == TRAILING_QUANTITY@
        &&& self.sum@ == SUM@
        &&& self.footer@ == FOOTER@
    }

    fn new() -> (r: Patterns)
        ensures
            r.ready(),
    {
        Patterns {
            heading: Pattern::new(HEADING),
            position_start: Pattern::new(POSITION_START),
            priced_data: Pattern::new(PRICED_DATA),
            trailing_quantity: Pattern::new(TRAILING_QUANTITY),
            sum: Pattern::new(SUM),
            footer: Pattern::new(FOOTER),
        }
    }

    fn seen(&self, line: &str) -> (r: Seen)
        requires
            self.ready(),
        ensures
            r@ == seen_in(line@),
    {
        Seen {
            footer: self.footer.matches(line),
            start: self.position_start.first(line),
            heading: self.heading.first(line),
            sum: self.sum.matches(line),
        }
    }
}

fn complete(patterns: &Patterns, position: Position, lines: Vec<String>, page_to: usize) -> (r: Position)
    requires
        patterns.ready(),
    ensures
        r@ == completed(Gathered { position: position@, lines: texts(lines@) }, page_to),
{
    let mut position = position;
    let mut lines = lines;
    let from: usize = match position.page_from {
        Some(p) => p,
        None => page_to,
    };
    position.page_to = Some(
        if page_to > from {
            page_to
        } else {
            from
        },
    );
    extract_leading_multiline_price(&patterns.priced_data, &mut position, &mut lines);
    extract_trailing_quantity(&patterns.trailing_quantity, &mut position, &mut lines);
    let cleaned = without_empty(&lines);
    assert(cleaned@.len() == texts(cleaned@).len());
    if cleaned.len() > 0 {
        assert(texts(cleaned@)[0] == cleaned@[0]@);
        let rest = vstd::slice::slice_subrange(cleaned.as_slice(), 1, cleaned.len());
        assert(texts(rest@) =~= texts(cleaned@).skip(1));
        position.short_text = cleaned[0].clone();
        position.long_text = joined(rest, "\n");
    }
    position
}

/// What has been read of a document.
#[verifier::ext_equal]
pub struct ReadView {
    pub boq: BoqView,
    pub headings: Seq<HeadingView>,
    pub current: Option<PositionView>,
    pub lines: Seq<Seq<char>>,
    pub preamble: Seq<Seq<char>>,
}

impl ReadView {
    /// A complete position is filed under its heading.
    pub open spec fn filing(self, done: PositionView) -> ReadView {
        let fallback = match done.page_from {
            Some(p) => p,
            None => 0,
        };
        ReadView {
            boq: BoqView {
                roots: filed(self.boq.roots, path_of(done.oz), 0, self.headings, fallback, done),
                ..self.boq
            },
            current: None,
            lines: seq![],
            ..self
        }
    }

    /// The position that is being read, if any, is complete.
    pub open spec fn finished(self, page: usize) -> ReadView {
        match self.current {
            None => self,
            Some(position) => self.filing(
                completed(Gathered { position, lines: self.lines }, page),
            ),
        }
    }

    /// A position starts with this line.
    pub open spec fn begun(self, g: Seq<Option<FoundView>>, page: usize) -> ReadView {
        self.finished(page).opened(g, first_match(PRICED_DATA@, group_text(g, 3)), page)
    }

    /// A position starts with the groups of a line, and with those of the price line that
    /// the rest of the line is, if it is one.
    pub open spec fn opened(
        self,
        g: Seq<Option<FoundView>>,
        prices: Option<Seq<Option<FoundView>>>,
        page: usize,
    ) -> ReadView {
        let rest = group_text(g, 3);
        let position = PositionView {
            oz: group_text(g, 1),
            page_from: Some(page),
            ..empty_position()
        };
        match prices {
            Some(p) => ReadView { current: Some(priced(position, p, rest)), ..self },
            None => ReadView {
                current: Some(position),
                lines: if rest.len() == 0 {
                    self.lines
                } else {
                    self.lines.push(rest)
                },
                ..self
            },
        }
    }

    /// A line with a heading.
    pub open spec fn headed(self, g: Seq<Option<FoundView>>, page: usize) -> ReadView {
        self.finished(page).noted(g, page)
    }

    /// One more heading, with the groups of its line.
    pub open spec fn noted(self, g: Seq<Option<FoundView>>, page: usize) -> ReadView {
        ReadView {
            headings: self.headings.push(
                HeadingView { oz: group_text(g, 1), title: trim(group_text(g, 3)), page },
            ),
            ..self
        }
    }

    /// A line of text: it belongs to the position that is being read, or on one of the
    /// first pages to the preamble.
    pub open spec fn continued(self, line: Seq<char>, page: usize) -> ReadView {
        match self.current {
            Some(position) => if line == "Eventualposition ohne GB"@ {
                ReadView {
                    current: Some(
                        PositionView { provisional: true, price_only: true, ..position },
                    ),
                    ..self
                }
            } else if line == "Fortsetzung von vorheriger Seite"@ || line
                == "Fortsetzung auf nächster Seite"@ {
                self
            } else {
                ReadView { lines: self.lines.push(line), ..self }
            },
            None => if page < 15 {
                ReadView { preamble: self.preamble.push(line), ..self }
            } else {
                self
            },
        }
    }

    /// One more line, its white space made single blanks.
    pub open spec fn line(self, line: Seq<char>, page: usize, six_parts: bool) -> ReadView {
        let seen = seen_in(line);
        match line_kind(line, seen, self.current is Some, six_parts) {
            LineKind::Noise => self,
            LineKind::Position => self.begun(seen.start->0, page),
            LineKind::Heading => self.headed(seen.heading->0, page),
            LineKind::Sum => self.finished(page),
            LineKind::Text => self.continued(line, page),
        }
    }

    /// The first `n` lines of a page.
    pub open spec fn page_lines(
        self,
        all: Seq<Seq<char>>,
        n: nat,
        page: usize,
        six_parts: bool,
    ) -> ReadView
        decreases n,
    {
        if n == 0 {
            self
        } else {
            self.page_lines(all, (n - 1) as nat, page, six_parts).line(
                single_spaced(all[n - 1]),
                page,
                six_parts,
            )
        }
    }

    /// A page.
    pub open spec fn page(self, text: Seq<char>, page: usize, six_parts: bool) -> ReadView {
        let all = lines(text);
        (ReadView { boq: with_metadata(self.boq, all, all.len()), ..self }).page_lines(
            all,
            all.len(),
            page,
            six_parts,
        )
    }
}

/// What the patterns find in a line.
pub struct Seen {
    pub footer: bool,
    pub start: Option<Vec<Option<Found>>>,
    pub heading: Option<Vec<Option<Found>>>,
    pub sum: bool,
}

/// What patterns find in a line: the foot of a page, the start of a position, a heading,
/// or a sum.
#[verifier::ext_equal]
pub struct SeenView {
    pub footer: bool,
    pub start: Option<Seq<Option<FoundView>>>,
    pub heading: Option<Seq<Option<FoundView>>>,
    pub sum: bool,
}

impl View for Seen {
    type V = SeenView;

    open spec fn view(&self) -> SeenView {
        SeenView {
            footer: self.footer,
            start: opt_groups(self.start),
            heading: opt_groups(self.heading),
            sum: self.sum,
        }
    }
}

/// What the patterns find in a line.
pub open spec fn seen_in(line: Seq<char>) -> SeenView {
    SeenView {
        footer: is_matched(FOOTER@, line),
        start: first_match(POSITION_START@, line),
        heading: first_match(HEADING@, line),
        sum: is_matched(SUM@, line),
    }
}

/// What a line is.
#[derive(Clone, Copy, PartialEq, Eq, Structural, Debug)]
pub enum LineKind {
    Noise,
    Position,
    Heading,
    Sum,
    Text,
}

/// What a line is in which the patterns have found this, while a position is being read
/// or not.
pub open spec fn line_kind(
    line: Seq<char>,
    seen: SeenView,
    open: bool,
    six_parts: bool,
) -> LineKind {
    if noise(line, seen.footer) {
        LineKind::Noise
    } else if seen.start is Some && position_number(
        group_text(seen.start->0, 1),
        group(seen.start->0, 2) is Some,
        six_parts,
    ) {
        LineKind::Position
    } else if seen.heading is Some && heading_number(
        group_text(seen.heading->0, 1),
        group(seen.heading->0, 2) is Some,
        open,
    ) {
        LineKind::Heading
    } else if sums_up(line, seen.sum) {
        LineKind::Sum
    } else {
        LineKind::Text
    }
}

pub fn kind_of_line(line: &str, seen: &Seen, open: bool, six_parts: bool) -> (r: LineKind)
    ensures
        r == line_kind(line@, seen@, open, six_parts),
{
    if is_noise(line, seen.footer) {
        return LineKind::Noise;
    }
    if let Some(caps) = &seen.start {
        if is_position_oz(
            captured_text(caps, 1).as_str(),
            captured(caps, 2).is_some(),
            six_parts,
        ) {
            return LineKind::Position;
        }
    }
    if let Some(caps) = &seen.heading {
        if is_heading_oz(captured_text(caps, 1).as_str(), captured(caps, 2).is_some(), open) {
            return LineKind::Heading;
        }
    }
    if seen.sum || starts_with(line, "Titelsumme:") || starts_with(line, "Gewerksumme:") {
        LineKind::Sum
    } else {
        LineKind::Text
    }
}

/// Whether a line closes a section with its sum.
pub open spec fn sums_up(line: Seq<char>, sum: bool) -> bool {
    ||| sum
    ||| "Titelsumme:"@.is_prefix_of(line)
    ||| "Gewerksumme:"@.is_prefix_of(line)
}

/// Whether a line is part of the head or foot of a page, given whether it is a foot.
pub open spec fn noise(line: Seq<char>, footer: bool) -> bool {
    ||| line.len() == 0
    ||| line == "in EUR in EUR"@
    ||| footer
    ||| "Angebot"@.is_prefix_of(line)
    ||| "Angebotsaufforderung_"@.is_prefix_of(line)
    ||| "Auftraggeber "@.is_prefix_of(line)
    ||| "Bieter "@.is_prefix_of(line)
    ||| "Druckdatum:"@.is_prefix_of(line)
    ||| "Projekt "@.is_prefix_of(line)
    ||| "Projekt:"@.is_prefix_of(line)
    ||| "LV "@.is_prefix_of(line)
    ||| "LV:"@.is_prefix_of(line)
    ||| "Mollmann Beratende Ingenieure GmbH"@.is_prefix_of(line)
    ||| "T. +49 "@.is_prefix_of(line)
    ||| "Übertrag:"@.is_prefix_of(line)
    ||| "OZ Menge / Einheit EP GB"@.is_prefix_of(line)
    ||| "OZ Leistungsbeschreibung"@.is_prefix_of(line)
}

pub fn is_noise(line: &str, footer: bool) -> (r: bool)
    ensures
        r == noise(line@, footer),
{
    line.is_empty() || same(line, "in EUR in EUR") || footer || starts_with(
        line,
        "Angebot",
    ) || starts_with(line, "Angebotsaufforderung_") || starts_with(line, "Auftraggeber ")
        || starts_with(line, "Bieter ") || starts_with(line, "Druckdatum:") || starts_with(
        line,
        "Projekt ",
    ) || starts_with(line, "Projekt:") || starts_with(line, "LV ") || starts_with(line, "LV:")
        || starts_with(line, "Mollmann Beratende Ingenieure GmbH") || starts_with(line, "T. +49 ")
        || starts_with(line, "Übertrag:") || starts_with(line, "OZ Menge / Einheit EP GB")
        || starts_with(line, "OZ Leistungsbeschreibung")
}

/// A field that is still empty takes what stands behind its label.
pub open spec fn labelled(value: Seq<char>, line: Seq<char>, label: Seq<char>) -> Seq<char> {
    match behind(line, label) {
        Some(rest) => if value.len() == 0 {
            trim(rest)
        } else {
            value
        },
        None => value,
    }
}

/// The bill with what the first `n` lines say of client, bidder and project.
pub open spec fn with_metadata(boq: BoqView, all: Seq<Seq<char>>, n: nat) -> BoqView
    decreases n,
{
    if n == 0 {
        boq
    } else {
        let before = with_metadata(boq, all, (n - 1) as nat);
        let line = single_spaced(all[n - 1]);
        BoqView {
            client: labelled(before.client, line, "Auftraggeber "@),
            bidder: labelled(before.bidder, line, "Bieter "@),
            project: labelled(before.project, line, "Projekt "@),
            ..before
        }
    }
}

fn label(value: &mut String, line: &str, name: &str)
    ensures
        final(value)@ == labelled(old(value)@, line@, name@),
{
    if value.as_str().is_empty() {
        if let Some(rest) = strip_prefix(line, name) {
            *value = trimmed(rest.as_str());
        }
    }
}

pub fn extract_metadata(boq: &mut BillOfQuantities, page: &str)
    ensures
        final(boq)@ == with_metadata(old(boq)@, lines(page@), lines(page@).len()),
{
    let all = split_lines(page);
    let ghost read = lines(page@);
    assert(all@.len() == texts(all@).len());
    let ghost start = boq@;
    let mut i: usize = 0;
    while i < all.len()
        invariant
            i <= all@.len() == read.len(),
            texts(all@) == read,
            boq@ == with_metadata(start, read, i as nat),
        decreases all@.len() - i,
    {
        assert(read[i as int] == all@[i as int]@);
        let line = normalize_line(all[i].as_str());
        label(&mut boq.client, line.as_str(), "Auftraggeber ");
        label(&mut boq.bidder, line.as_str(), "Bieter ");
        label(&mut boq.project, line.as_str(), "Projekt ");
        i = i + 1;
    }
}

/// A document that is being read.
pub struct Reading {
    pub boq: BillOfQuantities,
    pub headings: Vec<Heading>,
    pub current: Option<Position>,
    pub lines: Vec<String>,
    pub preamble: Vec<String>,
}

impl Reading {
    pub open spec fn state(self) -> ReadView {
        ReadView {
            boq: self.boq@,
            headings: heading_views(self.headings@),
            current: match self.current {
                Some(p) => Some(p@),
                None => None,
            },
            lines: texts(self.lines@),
            preamble: texts(self.preamble@),
        }
    }

    fn finish_position(&mut self, patterns: &Patterns, page: usize)
        requires
            patterns.ready(),
        ensures
            final(self).state() == old(self).state().finished(page),
    {
        let mut current: Option<Position> = None;
        std::mem::swap(&mut current, &mut self.current);
        if let Some(position) = current {
            let mut gathered: Vec<String> = Vec::new();
            std::mem::swap(&mut gathered, &mut self.lines);
            let done = complete(patterns, position, gathered, page);
            self.file_position(done);
        }
    }

    /// Files a complete position under its heading.
    pub fn file_position(&mut self, done: Position)
        ensures
            final(self).state() == old(self).state().filing(done@),
    {
        let mut above = parts(done.oz.as_str(), '.');
        let ghost all = texts(above@);
        proof {
            lemma_split_len(done.oz@, '.');
            assert(above@.len() == all.len());
        }
        above.pop();
        assert(texts(above@) =~= all.drop_last());
        let oz = joined(above.as_slice(), ".");
        let path = parts(oz.as_str(), '.');
        proof {
            lemma_split_len(oz@, '.');
            assert(path@.len() == texts(path@).len());
        }
        let fallback: usize = match done.page_from {
            Some(p) => p,
            None => 0,
        };
        ensure_path(&mut self.boq.roots, &path, 0, &self.headings, fallback, done);
        self.current = None;
        self.lines = Vec::new();
        assert(texts(self.lines@) =~= seq![]);
    }

    fn begin_position(&mut self, patterns: &Patterns, caps: &Vec<Option<Found>>, page: usize)
        requires
            patterns.ready(),
        ensures
            final(self).state() == old(self).state().begun(groups(caps@), page),
    {
        self.finish_position(patterns, page);
        let prices = patterns.priced_data.first(captured_text(caps, 3).as_str());
        self.open_position(caps, &prices, page);
    }

    /// Starts a position, given the groups of its line and those of the price line in it.
    pub fn open_position(
        &mut self,
        caps: &Vec<Option<Found>>,
        prices: &Option<Vec<Option<Found>>>,
        page: usize,
    )
        ensures
            final(self).state() == old(self).state().opened(
                groups(caps@),
                opt_groups(*prices),
                page,
            ),
    {
        broadcast use lemma_texts_push;
        let rest = captured_text(caps, 3);
        let mut position = Position::default();
        position.oz = captured_text(caps, 1);
        position.page_from = Some(page);
        match prices {
            Some(prices) => {
                apply_price_captures(&mut position, prices, rest.as_str());
            },
            None => {
                if !rest.as_str().is_empty() {
                    self.lines.push(rest);
                }
            },
        }
        self.current = Some(position);
    }

    /// Keeps a heading, given the groups of its line.
    pub fn note_heading(&mut self, caps: &Vec<Option<Found>>, page: usize)
        ensures
            final(self).state() == old(self).state().noted(groups(caps@), page),
    {
        let ghost before = heading_views(self.headings@);
        let heading = Heading {
            oz: captured_text(caps, 1),
            title: trimmed(captured_text(caps, 3).as_str()),
            page,
        };
        let ghost added = heading@;
        self.headings.push(heading);
        assert(heading_views(self.headings@) =~= before.push(added));
    }

    /// Keeps a line of text.
    pub fn add_text(&mut self, line: String, page: usize)
        ensures
            final(self).state() == old(self).state().continued(line@, page),
    {
        broadcast use lemma_texts_push;
        let mut current: Option<Position> = None;
        std::mem::swap(&mut current, &mut self.current);
        match current {
            Some(position) => {
                let mut position = position;
                if same(line.as_str(), "Eventualposition ohne GB") {
                    position.provisional = true;
                    position.price_only = true;
                } else if !same(line.as_str(), "Fortsetzung von vorheriger Seite") && !same(
                    line.as_str(),
                    "Fortsetzung auf nächster Seite",
                ) {
                    self.lines.push(line);
                }
                self.current = Some(position);
            },
            None => {
                if page < 15 {
                    self.preamble.push(line);
                }
            },
        }
    }

    fn add_line(&mut self, patterns: &Patterns, line: String, page: usize, six_parts: bool)
        requires
            patterns.ready(),
        ensures
            final(self).state() == old(self).state().line(line@, page, six_parts),
    {
        let seen = patterns.seen(line.as_str());
        let kind = kind_of_line(line.as_str(), &seen, self.current.is_some(), six_parts);
        match kind {
            LineKind::Noise => {},
            LineKind::Position => {
                if let Some(caps) = &seen.start {
                    self.begin_position(patterns, caps, page);
                }
            },
            LineKind::Heading => {
                if let Some(caps) = &seen.heading {
                    self.finish_position(patterns, page);
                    self.note_heading(caps, page);
                }
            },
            LineKind::Sum => self.finish_position(patterns, page),
            LineKind::Text => self.add_text(line, page),
        }
    }

    fn add_page(&mut self, patterns: &Patterns, text: &str, page: usize, six_parts: bool)
        requires
            patterns.ready(),
        ensures
            final(self).state() == old(self).state().page(text@, page, six_parts),
    {
        extract_metadata(&mut self.boq, text);
        let all = split_lines(text);
        let ghost read = lines(text@);
        assert(all@.len() == texts(all@).len());
        let ghost start = self.state();
        let mut i: usize = 0;
        while i < all.len()
            invariant
                i <= all@.len() == read.len(),
                texts(all@) == read,
                patterns.ready(),
                self.state() == start.page_lines(read, i as nat, page, six_parts),
            decreases all@.len() - i,
        {
            assert(read[i as int] == all@[i as int]@);
            let line = normalize_line(all[i].as_str());
            self.add_line(patterns, line, page, six_parts);
            i = i + 1;
        }
    }
}

/// What has been read after the first `n` pages.
pub open spec fn pages_read(boq: BoqView, pages: Seq<Seq<char>>, n: nat, six_parts: bool) -> ReadView
    decreases n,
{
    if n == 0 {
        ReadView { boq, headings: seq![], current: None, lines: seq![], preamble: seq![] }
    } else {
        pages_read(boq, pages, (n - 1) as nat, six_parts).page(
            pages[n - 1],
            n as usize,
            six_parts,
        )
    }
}

/// The last of the first `n` pages that has something on it, or the first page.
pub open spec fn last_page(pages: Seq<Seq<char>>, n: nat) -> usize
    decreases n,
{
    if n == 0 {
        1
    } else if trim(pages[n - 1]).len() > 0 {
        n as usize
    } else {
        last_page(pages, (n - 1) as nat)
    }
}

/// Whether a position is left out, as its texts say.
pub open spec fn said_to_be_omitted(p: PositionView) -> bool {
    ||| p.short_text == "Position entfällt"@
    ||| lines(p.long_text).contains("Position entfällt"@)
}

/// The difference between a total price and quantity times unit price, without its
/// sign; nothing where the arithmetic overflows.
pub open spec fn price_gap(quantity: Dec, unit_price: Dec, total: Dec) -> Option<Dec> {
    match multiplied(quantity, unit_price) {
        Some(product) => match subtracted(product, total) {
            Some(difference) => Some(difference.abs()),
            None => None,
        },
        None => None,
    }
}

/// The warnings about one position, given the positions in front of it.
pub open spec fn position_warnings(
    before: Seq<PositionView>,
    p: PositionView,
) -> Option<Seq<Seq<char>>> {
    let double = if exists|i: int| 0 <= i < before.len() && (#[trigger] before[i]).oz == p.oz {
        seq!["Doppelte OZ: "@ + p.oz]
    } else {
        seq![]
    };
    let incomplete = if !said_to_be_omitted(p) && (p.quantity is None || p.unit_price is None) {
        seq!["Unvollständige Preiszeile: "@ + p.oz]
    } else {
        seq![]
    };
    if p.quantity is Some && p.unit_price is Some && p.total_price is Some {
        match price_gap(p.quantity->0, p.unit_price->0, p.total_price->0) {
            None => None,
            Some(gap) => if gap.at_most(Dec { mantissa: 2, scale: 2 }) {
                Some(double + incomplete)
            } else {
                Some((double + incomplete).push("Preisabweichung "@ + p.oz + ": "@ + gap.plain()))
            },
        }
    } else {
        Some(double + incomplete)
    }
}

/// The warnings about the first `n` positions, nothing where the arithmetic overflows.
pub open spec fn bill_warnings(all: Seq<PositionView>, n: nat) -> Option<Seq<Seq<char>>>
    decreases n,
{
    if n == 0 {
        Some(seq![])
    } else {
        match (
            bill_warnings(all, (n - 1) as nat),
            position_warnings(all.take(n - 1), all[n - 1]),
        ) {
            (Some(before), Some(here)) => Some(before + here),
            _ => None,
        }
    }
}

/// What is said where a price calculation overflows.
pub open spec fn overflow_message() -> Seq<char> {
    "Preisberechnung überschreitet den Zahlenbereich"@
}

/// The bill that the text of a document gives.
pub open spec fn bill_of_text(source: Seq<char>, text: Seq<char>) -> Result<BoqView, Seq<char>> {
    let six_parts = is_matched(SIX_PART_PROFILE@, text);
    let pages = split(text, '\u{c}');
    let read = pages_read(empty_boq(source), pages, pages.len(), six_parts).finished(
        last_page(pages, pages.len()),
    );
    let roots = with_heading_titles(read.boq.roots, read.headings);
    let all = positions_of(roots);
    match bill_warnings(all, all.len()) {
        Some(warnings) => Ok(
            BoqView {
                preamble: trim(join(read.preamble, "\n"@)),
                roots,
                warnings: read.boq.warnings + warnings,
                ..read.boq
            },
        ),
        None => Err(overflow_message()),
    }
}

pub open spec fn boq_outcome(r: Result<BillOfQuantities, Error>) -> Result<BoqView, Seq<char>> {
    match r {
        Ok(boq) => Ok(boq@),
        Err(error) => Err(error@),
    }
}

fn is_omitted(position: &Position) -> (r: bool)
    ensures
        r == said_to_be_omitted(position@),
{
    if same(position.short_text.as_str(), "Position entfällt") {
        return true;
    }
    let all = split_lines(position.long_text.as_str());
    listed(all.as_slice(), "Position entfällt")
}

fn oz_seen(all: &Vec<&Position>, n: usize) -> (r: bool)
    requires
        n < all@.len(),
    ensures
        r == exists|i: int|
            0 <= i < n && (#[trigger] ref_views(all@).take(n as int)[i]).oz == all@[n as int].oz@,
{
    let ghost views = ref_views(all@).take(n as int);
    let mut i: usize = 0;
    while i < n
        invariant
            i <= n < all@.len(),
            views == ref_views(all@).take(n as int),
            forall|j: int| 0 <= j < i ==> (#[trigger] views[j]).oz != all@[n as int].oz@,
        decreases n - i,
    {
        assert(views[i as int] == all@[i as int]@);
        if same(all[i].oz.as_str(), all[n].oz.as_str()) {
            return true;
        }
        i = i + 1;
    }
    false
}

fn warn_of(all: &Vec<&Position>, n: usize, warnings: &mut Vec<String>) -> (r: bool)
    requires
        n < all@.len(),
    ensures
        r == (position_warnings(ref_views(all@).take(n as int), all@[n as int]@) is Some),
        r ==> texts(final(warnings)@) == texts(old(warnings)@) + position_warnings(
            ref_views(all@).take(n as int),
            all@[n as int]@,
        )->0,
{
    broadcast use lemma_texts_push;
    let ghost start = texts(warnings@);
    let position = all[n];
    assert(ref_views(all@).take(n as int).len() == n);
    if oz_seen(all, n) {
        warnings.push("Doppelte OZ: ".to_owned().concat(position.oz.as_str()));
    }
    if !is_omitted(position) && (position.quantity.is_none() || position.unit_price.is_none()) {
        warnings.push("Unvollständige Preiszeile: ".to_owned().concat(position.oz.as_str()));
    }
    if let (Some(quantity), Some(unit_price), Some(total)) = (
        position.quantity,
        position.unit_price,
        position.total_price,
    ) {
        let product = match quantity.checked_mul(unit_price) {
            Some(product) => product,
            None => {
                return false;
            },
        };
        let difference = match product.checked_sub(total) {
            Some(difference) => difference.abs(),
            None => {
                return false;
            },
        };
        if !difference.at_most(Decimal::new(2, 2)) {
            warnings.push(
                "Preisabweichung ".to_owned().concat(position.oz.as_str()).concat(": ").concat(
                    difference.plain().as_str(),
                ),
            );
        }
    }
    true
}

/// Adds the warnings about the positions of a bill.
pub fn validate(boq: &mut BillOfQuantities) -> (r: bool)
    ensures
        r == (bill_warnings(
            positions_of(old(boq)@.roots),
            positions_of(old(boq)@.roots).len(),
        ) is Some),
        r ==> final(boq)@ == (BoqView {
            warnings: old(boq)@.warnings + bill_warnings(
                positions_of(old(boq)@.roots),
                positions_of(old(boq)@.roots).len(),
            )->0,
            ..old(boq)@
        }),
{
    let ghost views = positions_of(boq@.roots);
    let mut warnings: Vec<String> = Vec::new();
    std::mem::swap(&mut warnings, &mut boq.warnings);
    let ghost start = texts(warnings@);
    let mut whole = true;
    let all = positions(&boq.roots);
    assert(ref_views(all@) == views);
    assert(all@.len() == ref_views(all@).len());
    let mut i: usize = 0;
    while i < all.len() && whole
        invariant
            i <= all@.len() == views.len(),
            ref_views(all@) == views,
            whole ==> bill_warnings(views, i as nat) is Some && texts(warnings@) == start
                + bill_warnings(views, i as nat)->0,
            !whole ==> bill_warnings(views, i as nat) is None,
        decreases all@.len() - i + (if whole { 1int } else { 0int }),
    {
        assert(views[i as int] == all@[i as int]@);
        whole = warn_of(&all, i, &mut warnings);
        i = i + 1;
    }
    proof {
        if !whole {
            lemma_no_warnings(views, i as nat, views.len());
        }
    }
    boq.warnings = warnings;
    whole
}

proof fn lemma_no_warnings(all: Seq<PositionView>, n: nat, m: nat)
    requires
        n <= m,
        bill_warnings(all, n) is None,
    ensures
        bill_warnings(all, m) is None,
    decreases m,
{
    if n < m {
        lemma_no_warnings(all, n, (m - 1) as nat);
    }
}

/// The bill that the text of a document gives.
pub fn parse_text(source: &str, text: &str) -> (r: Result<BillOfQuantities, Error>)
    ensures
        boq_outcome(r) == bill_of_text(source@, text@),
{
    let patterns = Patterns::new();
    let six_parts = Pattern::new(SIX_PART_PROFILE).matches(text);
    let pages = parts(text, '\u{c}');
    let ghost all = split(text@, '\u{c}');
    let ghost empty = empty_boq(source@);
    assert(pages@.len() == texts(pages@).len());
    let mut reading = Reading {
        boq: BillOfQuantities::new(source),
        headings: Vec::new(),
        current: None,
        lines: Vec::new(),
        preamble: Vec::new(),
    };
    assert(reading.state() =~= pages_read(empty, all, 0, six_parts));
    let mut last: usize = 1;
    let mut i: usize = 0;
    while i < pages.len()
        invariant
            i <= pages@.len() == all.len(),
            texts(pages@) == all,
            patterns.ready(),
            last == last_page(all, i as nat),
            reading.state() == pages_read(empty, all, i as nat, six_parts),
        decreases pages@.len() - i,
    {
        assert(all[i as int] == pages@[i as int]@);
        if !trimmed(pages[i].as_str()).as_str().is_empty() {
            last = i + 1;
        }
        reading.add_page(&patterns, pages[i].as_str(), i + 1, six_parts);
        i = i + 1;
    }
    reading.finish_position(&patterns, last);
    let Reading { boq, headings, current: _, lines: _, preamble } = reading;
    let mut boq = boq;
    boq.preamble = trimmed(joined(preamble.as_slice(), "\n").as_str());
    apply_heading_titles(&mut boq.roots, &headings);
    if validate(&mut boq) {
        Ok(boq)
    } else {
        Err(failure("Preisberechnung überschreitet den Zahlenbereich"))
    }
}

} // verus!
