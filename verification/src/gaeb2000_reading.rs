//! What the blocks of a GAEB DA 2000 file become.

use crate::document::{empty_item, ItemView, RowView};
use crate::gaeb2000::{
    before, block, comma_number, depth, dotted, gaeb_2000, last_open, lines_read, resolved, tagged,
    with_text_line, TaggedView,
};
use crate::gaeb2000_laws::law_trim_once;
use crate::parser::german_number;
use crate::text::{
    join, lemma_position_of, lines, position_of, trim, trim_start, without_end,
};
use vstd::prelude::*;

verus! {

/// What a line says, without white space at its ends.
pub open spec fn content_of(raw: Seq<char>) -> Seq<char> {
    trim(without_end(raw, '\r'))
}

/// The last of tagged values that has this tag.
pub open spec fn last_of(fields: Seq<(Seq<char>, Seq<char>)>, tag: Seq<char>) -> Option<Seq<char>>
    decreases fields.len(),
{
    if fields.len() == 0 {
        None
    } else if fields.last().0 == tag {
        Some(fields.last().1)
    } else {
        last_of(fields.drop_last(), tag)
    }
}

/// Whether lines from `at` on are tagged values, one on each line.
pub open spec fn field_lines(
    all: Seq<Seq<char>>,
    at: int,
    fields: Seq<(Seq<char>, Seq<char>)>,
) -> bool {
    &&& 0 <= at && at + fields.len() <= all.len()
    &&& forall|k: int| #![trigger fields[k]]
        0 <= k < fields.len() ==> {
            &&& content_of(all[at + k]) == "["@ + fields[k].0 + "]"@ + fields[k].1 + "[end]"@
            &&& !fields[k].0.contains(']')
            &&& fields[k].0 != "DP"@
            &&& !fields[k].1.contains('&')
        }
}

/// Whether an item has what tagged values say: its number, its texts, its unit, its
/// quantity and its prices, each under the tag of its own, and nothing where no value has
/// the tag.
pub open spec fn says(
    item: ItemView,
    fields: Seq<(Seq<char>, Seq<char>)>,
    lengths: Seq<nat>,
) -> bool {
    &&& item.oz == (match last_of(fields, "OZ"@) {
        Some(v) => dotted(trim(v), lengths),
        None => seq![],
    })
    &&& item.short_text == (match last_of(fields, "Kurztext"@) {
        Some(v) => trim(v),
        None => seq![],
    })
    &&& item.long_text == (match last_of(fields, "Langtext"@) {
        Some(v) => trim(v),
        None => seq![],
    })
    &&& item.unit == (match last_of(fields, "ME"@) {
        Some(v) => trim(v),
        None => seq![],
    })
    &&& item.quantity == (match last_of(fields, "Menge"@) {
        Some(v) => german_number(Some(trim(v))),
        None => None,
    })
    &&& item.unit_price == (match last_of(fields, "EP"@) {
        Some(v) => german_number(Some(trim(v))),
        None => None,
    })
    &&& item.total_price == (match last_of(fields, "GB"@) {
        Some(v) => german_number(Some(trim(v))),
        None => None,
    })
}

proof fn lemma_tag_names()
    ensures
        "OZ"@.len() == 2 && "OZ"@[0] == 'O',
        "ME"@.len() == 2 && "ME"@[0] == 'M',
        "EP"@.len() == 2 && "EP"@[0] == 'E',
        "GB"@.len() == 2 && "GB"@[0] == 'G',
        "DP"@.len() == 2 && "DP"@[0] == 'D',
        "Kurztext"@.len() == 8 && "Kurztext"@[0] == 'K',
        "Langtext"@.len() == 8 && "Langtext"@[0] == 'L',
        "Menge"@.len() == 5,
        "Position"@.len() == 8,
        "ZuschlPosition"@.len() == 14,
        "LVGlied"@.len() == 7,
        "LVBereich"@.len() == 9,
        "Wae"@.len() == 3 && "Wae"@[0] == 'W',
        "Name"@.len() == 4,
        "Typ"@.len() == 3 && "Typ"@[0] == 'T',
        "Laenge"@.len() == 6,
        "Bez"@.len() == 3 && "Bez"@[0] == 'B',
{
    reveal_strlit("OZ");
    reveal_strlit("ME");
    reveal_strlit("EP");
    reveal_strlit("GB");
    reveal_strlit("DP");
    reveal_strlit("Kurztext");
    reveal_strlit("Langtext");
    reveal_strlit("Menge");
    reveal_strlit("Position");
    reveal_strlit("ZuschlPosition");
    reveal_strlit("LVGlied");
    reveal_strlit("LVBereich");
    reveal_strlit("Wae");
    reveal_strlit("Name");
    reveal_strlit("Typ");
    reveal_strlit("Laenge");
    reveal_strlit("Bez");
}

proof fn lemma_marks()
    ensures
        "["@ == seq!['['],
        "]"@ == seq![']'],
        "[end]"@ == seq!['[', 'e', 'n', 'd', ']'],
        "#begin["@.len() == 7 && "#begin["@[0] == '#' && "#begin["@[1] == 'b',
        "#end["@.len() == 5 && "#end["@[0] == '#' && "#end["@[1] == 'e',
{
    reveal_strlit("[");
    reveal_strlit("]");
    reveal_strlit("[end]");
    reveal_strlit("#begin[");
    reveal_strlit("#end[");
    assert("["@ =~= seq!['[']);
    assert("]"@ =~= seq![']']);
    assert("[end]"@ =~= seq!['[', 'e', 'n', 'd', ']']);
}

/// A line with a tagged value that ends on it.
proof fn lemma_field_line(
    s: TaggedView,
    raw: Seq<char>,
    tag: Seq<char>,
    value: Seq<char>,
)
    requires
        s.pending is None,
        content_of(raw) == "["@ + tag + "]"@ + value + "[end]"@,
        !tag.contains(']'),
    ensures
        s.line(raw) == s.value(tag, value),
{
    lemma_marks();
    let content = content_of(raw);
    let rest = tag + "]"@ + value + "[end]"@;
    assert(content[0] == '[');
    assert("["@.is_prefix_of(content)) by {
        assert(content.subrange(0, 1) =~= "["@);
    }
    assert(content.skip(1) =~= rest);
    assert(!"#begin["@.is_prefix_of(content)) by {
        if "#begin["@.is_prefix_of(content) {
            assert("#begin["@[0] == content.subrange(0, "#begin["@.len() as int)[0]);
        }
    }
    assert(!"#end["@.is_prefix_of(content)) by {
        if "#end["@.is_prefix_of(content) {
            assert("#end["@[0] == content.subrange(0, "#end["@.len() as int)[0]);
        }
    }
    let n = tag.len() as int;
    assert forall|i: int| 0 <= i < n implies rest[i] != ']' by {
        assert(rest[i] == tag[i]);
        assert(tag.contains(tag[i]));
    }
    assert(rest[n] == ']');
    lemma_position_of(rest, ']', n);
    assert(rest.take(n) =~= tag);
    let tail = value + "[end]"@;
    assert(rest.skip(n + 1) =~= tail);
    assert(tagged(content) == Some((tag, tail)));
    assert("[end]"@.is_suffix_of(tail)) by {
        assert(tail.subrange(tail.len() - 5, tail.len() as int) =~= "[end]"@);
    }
    assert(tail.take(tail.len() - 5) =~= value);
    assert(before(tail, "[end]"@) == Some(value));
    reveal(TaggedView::line);
}

proof fn lemma_begin_line(s: TaggedView, raw: Seq<char>, name: Seq<char>)
    requires
        s.pending is None,
        content_of(raw) == "#begin["@ + name + "]"@,
    ensures
        s.line(raw) == s.begun(name),
{
    lemma_marks();
    let content = content_of(raw);
    assert(content.subrange(0, 7) =~= "#begin["@);
    let rest = name + "]"@;
    assert(content.skip(7) =~= rest);
    assert(rest.subrange(rest.len() - 1, rest.len() as int) =~= "]"@);
    assert(rest.take(rest.len() - 1) =~= name);
    assert(block(content, "#begin["@) == Some(name));
    reveal(TaggedView::line);
}

proof fn lemma_end_line(s: TaggedView, raw: Seq<char>, name: Seq<char>)
    requires
        s.pending is None,
        content_of(raw) == "#end["@ + name + "]"@,
    ensures
        s.line(raw) == s.ended(name),
{
    lemma_marks();
    let content = content_of(raw);
    assert(content.subrange(0, 5) =~= "#end["@);
    let rest = name + "]"@;
    assert(content.skip(5) =~= rest);
    assert(rest.subrange(rest.len() - 1, rest.len() as int) =~= "]"@);
    assert(rest.take(rest.len() - 1) =~= name);
    assert(block(content, "#end["@) == Some(name));
    assert(!"#begin["@.is_prefix_of(content)) by {
        if "#begin["@.is_prefix_of(content) {
            assert("#begin["@[1] == content.subrange(0, 7)[1]);
            assert(content[1] == "#end["@[1]);
        }
    }
    reveal(TaggedView::line);
}

/// A number in a file is read as one on a printed page.
pub proof fn law_numbers_read_alike(s: Seq<char>)
    ensures
        comma_number(s) == german_number(Some(trim(s))),
{
}

proof fn lemma_last_of(fields: Seq<(Seq<char>, Seq<char>)>, n: int, tag: Seq<char>)
    requires
        0 <= n < fields.len(),
    ensures
        last_of(fields.take(n + 1), tag) == (if fields[n].0 == tag {
            Some(fields[n].1)
        } else {
            last_of(fields.take(n), tag)
        }),
{
    assert(fields.take(n + 1).drop_last() =~= fields.take(n));
}

/// The state after the lines of a block of an item.
#[verifier::rlimit(40)]
proof fn lemma_block_read(
    all: Seq<Seq<char>>,
    source: Seq<char>,
    i: int,
    fields: Seq<(Seq<char>, Seq<char>)>,
    n: int,
)
    requires
        0 <= i < all.len(),
        lines_read(all, i as nat, source).pending is None,
        !lines_read(all, i as nat, source).sections.contains("ZuschlPosition"@),
        content_of(all[i]) == "#begin["@ + "Position"@ + "]"@,
        field_lines(all, i + 1, fields),
        0 <= n <= fields.len(),
    ensures
        ({
            let start = lines_read(all, i as nat, source);
            let s = lines_read(all, (i + 1 + n) as nat, source);
            &&& s.pending is None
            &&& s.sections == start.sections.push("Position"@)
            &&& s.lengths == start.lengths
            &&& s.document == start.closed().document
            &&& s.item is Some
            &&& says(s.item->0, fields.take(n), start.lengths)
        }),
    decreases n,
{
    lemma_tag_names();
    let start = lines_read(all, i as nat, source);
    if n == 0 {
        lemma_begin_line(start, all[i], "Position"@);
        assert(fields.take(0) =~= seq![]);
        assert(lines_read(all, (i + 1) as nat, source) == start.begun("Position"@));
    } else {
        lemma_block_read(all, source, i, fields, n - 1);
        let s = lines_read(all, (i + n) as nat, source);
        let next = lines_read(all, (i + 1 + n) as nat, source);
        let (tag, value) = fields[n - 1];
        assert(next == s.line(all[i + n]));
        assert(content_of(all[i + 1 + (n - 1)]) == "["@ + tag + "]"@ + value + "[end]"@);
        lemma_field_line(s, all[i + n], tag, value);
        assert(s.sections.last() == "Position"@);
        assert(s.sections.contains("Position"@)) by {
            assert(s.sections[s.sections.len() - 1] == "Position"@);
        }
        assert(!s.sections.contains("ZuschlPosition"@)) by {
            if s.sections.contains("ZuschlPosition"@) {
                let k = choose|k: int|
                    0 <= k < s.sections.len() && s.sections[k] == "ZuschlPosition"@;
                assert(start.sections[k] == "ZuschlPosition"@);
            }
        }
        lemma_trim_plain(value);
        law_trim_once(value);
        assert(next == (TaggedView { item: s.item_value(tag, trim(value)), ..s })) by {
            reveal(TaggedView::value);
        }
        lemma_last_of(fields, n - 1, "OZ"@);
        lemma_last_of(fields, n - 1, "Kurztext"@);
        lemma_last_of(fields, n - 1, "Langtext"@);
        lemma_last_of(fields, n - 1, "ME"@);
        lemma_last_of(fields, n - 1, "Menge"@);
        lemma_last_of(fields, n - 1, "EP"@);
        lemma_last_of(fields, n - 1, "GB"@);
        law_numbers_read_alike(trim(value));
    }
}

/// Trimming brings no character in.
proof fn lemma_trim_plain(s: Seq<char>)
    requires
        !s.contains('&'),
    ensures
        !trim(s).contains('&'),
        resolved(trim(s)) == trim(s),
{
    lemma_trim_start_part(s, '&');
    lemma_trim_end_part(trim_start(s), '&');
}

proof fn lemma_trim_start_part(s: Seq<char>, c: char)
    requires
        !s.contains(c),
    ensures
        !trim_start(s).contains(c),
    decreases s.len(),
{
    if s.len() > 0 && crate::text::is_space(s[0]) {
        assert(!s.skip(1).contains(c)) by {
            if s.skip(1).contains(c) {
                let k = choose|k: int| 0 <= k < s.skip(1).len() && s.skip(1)[k] == c;
                assert(s[k + 1] == c);
            }
        }
        lemma_trim_start_part(s.skip(1), c);
    }
}

proof fn lemma_trim_end_part(s: Seq<char>, c: char)
    requires
        !s.contains(c),
    ensures
        !crate::text::trim_end(s).contains(c),
    decreases s.len(),
{
    if s.len() > 0 && crate::text::is_space(s.last()) {
        assert(!s.drop_last().contains(c)) by {
            if s.drop_last().contains(c) {
                let k = choose|k: int| 0 <= k < s.drop_last().len() && s.drop_last()[k] == c;
                assert(s[k] == c);
            }
        }
        lemma_trim_end_part(s.drop_last(), c);
    }
}

/// Items that have been read stay as they are.
spec fn items_stay(a: TaggedView, b: TaggedView) -> bool {
    &&& a.document.rows.len() <= b.document.rows.len()
    &&& forall|j: int| #![trigger b.document.rows[j]]
        0 <= j < a.document.rows.len() && a.document.rows[j] is Item ==> b.document.rows[j]
            == a.document.rows[j]
}

proof fn lemma_value_keeps(s: TaggedView, tag: Seq<char>, raw: Seq<char>)
    ensures
        items_stay(s, s.value(tag, raw)),
{
    reveal(TaggedView::value);
}

proof fn lemma_line_keeps(s: TaggedView, raw: Seq<char>)
    ensures
        items_stay(s, s.line(raw)),
{
    reveal(TaggedView::line);
    let content = content_of(raw);
    match s.pending {
        Some((tag, value)) => {
            if let Some(last) = before(content, "[end]"@) {
                let whole = if last.len() > 0 {
                    with_text_line(value, last)
                } else {
                    value
                };
                lemma_value_keeps(s, tag, whole);
            }
        },
        None => {
            if let Some((tag, rest)) = tagged(content) {
                if let Some(value) = before(rest, "[end]"@) {
                    lemma_value_keeps(s, tag, value);
                }
            }
        },
    }
}

proof fn lemma_lines_keep(all: Seq<Seq<char>>, from: nat, to: nat, source: Seq<char>)
    requires
        from <= to <= all.len(),
    ensures
        items_stay(lines_read(all, from, source), lines_read(all, to, source)),
    decreases to,
{
    if from < to {
        lemma_lines_keep(all, from, (to - 1) as nat, source);
        let mid = lines_read(all, (to - 1) as nat, source);
        lemma_line_keeps(mid, all[to - 1]);
        let a = lines_read(all, from, source);
        let b = lines_read(all, to, source);
        assert forall|j: int| #![trigger b.document.rows[j]]
            0 <= j < a.document.rows.len() && a.document.rows[j] is Item implies b.document.rows[j]
            == a.document.rows[j] by {
            assert(mid.document.rows[j] == a.document.rows[j]);
        }
    }
}

/// The block of a position that opens on line `i` and holds tagged values, one on each
/// line, is read as an item with what the values say, each under the tag of its own. The
/// lengths by which its number gets its dots are those of the levels that were described in
/// front of it.
pub proof fn law_position_block_read(
    source: Seq<char>,
    text: Seq<char>,
    i: int,
    fields: Seq<(Seq<char>, Seq<char>)>,
)
    requires
        gaeb_2000(source, text) is Ok,
        0 <= i,
        i + 1 + fields.len() < lines(text).len(),
        lines_read(lines(text), i as nat, source).pending is None,
        !lines_read(lines(text), i as nat, source).sections.contains("ZuschlPosition"@),
        content_of(lines(text)[i]) == "#begin["@ + "Position"@ + "]"@,
        field_lines(lines(text), i + 1, fields),
        content_of(lines(text)[i + 1 + fields.len()]) == "#end["@ + "Position"@ + "]"@,
        match last_of(fields, "OZ"@) {
            Some(v) => dotted(trim(v), lines_read(lines(text), i as nat, source).lengths).len() > 0,
            None => false,
        },
    ensures
        exists|j: int| #![trigger gaeb_2000(source, text)->Ok_0.rows[j]]
            {
                let rows = gaeb_2000(source, text)->Ok_0.rows;
                &&& 0 <= j < rows.len()
                &&& rows[j] is Item
                &&& says(
                    rows[j]->Item_0,
                    fields,
                    lines_read(lines(text), i as nat, source).lengths,
                )
            },
{
    let all = lines(text);
    let n = fields.len() as int;
    lemma_block_read(all, source, i, fields, n);
    assert(fields.take(n) =~= fields);
    let s = lines_read(all, (i + 1 + n) as nat, source);
    let next = lines_read(all, (i + 2 + n) as nat, source);
    assert(next == s.line(all[i + 1 + n]));
    lemma_end_line(s, all[i + 1 + n], "Position"@);
    let j = s.document.rows.len() as int;
    assert(next.document.rows == s.document.rows.push(RowView::Item(s.item->0)));
    assert(next.document.rows[j] is Item);
    lemma_lines_keep(all, (i + 2 + n) as nat, all.len(), source);
    let whole = lines_read(all, all.len(), source);
    assert(whole.document.rows[j] == next.document.rows[j]);
    let rows = gaeb_2000(source, text)->Ok_0.rows;
    assert(rows == whole.closed().document.rows);
    assert(rows[j] == whole.document.rows[j]);
}

/// A block of a heading that opens on line `i`, with its number and its title on the next
/// two lines, is read as a heading with that number and title. Its level is the number of
/// headings that are open.
pub proof fn law_heading_block_read(
    source: Seq<char>,
    all: Seq<Seq<char>>,
    i: int,
    number: Seq<char>,
    title: Seq<char>,
)
    requires
        0 <= i,
        i + 2 < all.len(),
        lines_read(all, i as nat, source).pending is None,
        !lines_read(all, i as nat, source).sections.contains("Position"@),
        content_of(all[i]) == "#begin["@ + "LVBereich"@ + "]"@,
        content_of(all[i + 1]) == "["@ + "OZ"@ + "]"@ + number + "[end]"@,
        content_of(all[i + 2]) == "["@ + "Bez"@ + "]"@ + title + "[end]"@,
        !number.contains('&'),
        !title.contains('&'),
    ensures
        ({
            let start = lines_read(all, i as nat, source);
            let s = lines_read(all, (i + 3) as nat, source);
            s.document.rows == start.document.rows.push(
                RowView::Category {
                    oz: dotted(trim(number), start.lengths),
                    title: trim(title),
                    level: depth(start.sections) + 1,
                },
            )
        }),
{
    lemma_tag_names();
    let start = lines_read(all, i as nat, source);
    let a = lines_read(all, (i + 1) as nat, source);
    let b = lines_read(all, (i + 2) as nat, source);
    let c = lines_read(all, (i + 3) as nat, source);
    lemma_begin_line(start, all[i], "LVBereich"@);
    assert(a == start.begun("LVBereich"@));
    let inner = start.sections.push("LVBereich"@);
    assert(a.sections == inner);
    assert(!inner.contains("Position"@)) by {
        if inner.contains("Position"@) {
            let k = choose|k: int| 0 <= k < inner.len() && inner[k] == "Position"@;
            assert(k < start.sections.len());
            assert(start.sections[k] == "Position"@);
        }
    }
    assert(inner.drop_last() =~= start.sections);
    assert(!"OZ"@.contains(']') && !"Bez"@.contains(']')) by {
        reveal_strlit("OZ");
        reveal_strlit("Bez");
    }
    lemma_field_line(a, all[i + 1], "OZ"@, number);
    lemma_trim_plain(number);
    law_trim_once(number);
    assert(b == a.outer_value("OZ"@, trim(number))) by {
        reveal(TaggedView::value);
    }
    lemma_field_line(b, all[i + 2], "Bez"@, title);
    lemma_trim_plain(title);
    law_trim_once(title);
    assert(c == b.outer_value("Bez"@, trim(title))) by {
        reveal(TaggedView::value);
    }
    assert(c.document.rows =~= start.document.rows.push(
        RowView::Category {
            oz: dotted(trim(number), start.lengths),
            title: trim(title),
            level: depth(start.sections) + 1,
        },
    ));
}

/// The lines of a value that goes over several lines, without the white space in front of
/// those in between.
pub open spec fn value_lines(
    first: Seq<char>,
    between: Seq<Seq<char>>,
) -> Seq<Seq<char>> {
    seq![first] + Seq::new(between.len(), |k: int| trim_start(without_end(between[k], '\r')))
}

proof fn lemma_value_lines(first: Seq<char>, between: Seq<Seq<char>>, n: int)
    requires
        0 <= n < between.len(),
    ensures
        value_lines(first, between.take(n + 1)) == value_lines(first, between.take(n)).push(
            trim_start(without_end(between[n], '\r')),
        ),
{
    assert(value_lines(first, between.take(n + 1)) =~= value_lines(first, between.take(n)).push(
        trim_start(without_end(between[n], '\r')),
    ));
}

proof fn lemma_pending_lines(s: TaggedView, tag: Seq<char>, first: Seq<char>, lines: Seq<Seq<char>>)
    requires
        s.pending == Some((tag, first)),
        first.len() > 0,
        forall|k: int|
            0 <= k < lines.len() ==> !"[end]"@.is_suffix_of(content_of(#[trigger] lines[k])),
    ensures
        crate::gaeb2000_laws::run(s, lines) == (TaggedView {
            pending: Some((tag, join(value_lines(first, lines), "\n"@))),
            ..s
        }),
        join(value_lines(first, lines), "\n"@).len() > 0,
    decreases lines.len(),
{
    reveal_strlit("\n");
    assert("\n"@ =~= seq!['\n']);
    if lines.len() == 0 {
        assert(value_lines(first, lines) =~= seq![first]);
    } else {
        let n = lines.len() - 1;
        lemma_pending_lines(s, tag, first, lines.drop_last());
        lemma_value_lines(first, lines, n);
        assert(lines.take(n) =~= lines.drop_last());
        assert(lines.take(n + 1) =~= lines);
        let mid = crate::gaeb2000_laws::run(s, lines.drop_last());
        assert(!"[end]"@.is_suffix_of(content_of(lines[n])));
        let p = value_lines(first, lines.drop_last());
        let next = trim_start(without_end(lines[n], '\r'));
        assert(mid.line(lines.last()) == (TaggedView {
            pending: Some((tag, with_text_line(join(p, "\n"@), next))),
            ..mid
        })) by {
            reveal(TaggedView::line);
        }
        assert(p.push(next).drop_last() =~= p);
        assert(join(p, "\n"@).push('\n') =~= join(p, "\n"@) + "\n"@);
        assert(crate::gaeb2000_laws::run(s, lines) == mid.line(lines.last()));
    }
}

/// A value that goes over several lines is taken in with all of them, in order, each on a
/// line of its own.
pub proof fn law_long_value_read(
    s: TaggedView,
    tag: Seq<char>,
    first: Seq<char>,
    lines: Seq<Seq<char>>,
    last: Seq<char>,
    end: Seq<char>,
)
    requires
        s.pending == Some((tag, first)),
        first.len() > 0,
        end.len() > 0,
        forall|k: int|
            0 <= k < lines.len() ==> !"[end]"@.is_suffix_of(content_of(#[trigger] lines[k])),
        content_of(last) == end + "[end]"@,
    ensures
        crate::gaeb2000_laws::run(s, lines.push(last)) == (TaggedView {
            pending: None,
            ..s.value(tag, join(value_lines(first, lines).push(end), "\n"@))
        }),
{
    reveal_strlit("\n");
    assert("\n"@ =~= seq!['\n']);
    lemma_marks();
    lemma_pending_lines(s, tag, first, lines);
    let mid = crate::gaeb2000_laws::run(s, lines);
    let p = value_lines(first, lines);
    let content = content_of(last);
    assert(lines.push(last).drop_last() =~= lines);
    assert(content.subrange(content.len() - 5, content.len() as int) =~= "[end]"@);
    assert(content.take(content.len() - 5) =~= end);
    assert(before(content, "[end]"@) == Some(end));
    assert(p.push(end).drop_last() =~= p);
    assert(join(p, "\n"@).push('\n') =~= join(p, "\n"@) + "\n"@);
    let whole = join(p.push(end), "\n"@);
    assert(mid.line(last) == (TaggedView { pending: None, ..mid.value(tag, whole) })) by {
        reveal(TaggedView::line);
    }
    crate::gaeb2000::lemma_value_pending(s, TaggedView { pending: None, ..s }, tag, whole);
    crate::gaeb2000::lemma_value_pending(mid, TaggedView { pending: None, ..mid }, tag, whole);
    assert(TaggedView { pending: None, ..mid } =~= TaggedView { pending: None, ..s });
}

} // verus!
