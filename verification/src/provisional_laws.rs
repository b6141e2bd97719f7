//! What marking the optional items of a document leaves as it was.

use vstd::prelude::*;
use vstd::utf8::encode_utf8;

use crate::gaeb2000::byte_slice;
use crate::gaeb2000_laws::lemma_encode_concat;
use crate::parser::size;
use crate::patterns::{at_char, in_order, item_tags, match_of, tag_from, tag_matches, FoundView};
use crate::provisional_xml::{item_body, marked, marked_until, marks, match_end, with_marks};
use crate::text::{
    contains, find, find_from, lemma_find_from, lemma_position_of, lemma_position_of_found, position_of,
};

verus! {

/// The number of characters in front of a byte.
spec fn char_at(s: Seq<char>, n: nat) -> int {
    choose|k: int| 0 <= k <= s.len() && n == #[trigger] encode_utf8(s.take(k)).len()
}

/// The bytes of a part of a text are that part.
proof fn lemma_part(a: Seq<char>, b: Seq<char>, c: Seq<char>)
    ensures
        byte_slice(a + b + c, size(a) as int, size(a + b) as int) == b,
        size(a + b) == size(a) + size(b),
{
    lemma_encode_concat(a + b, c);
    lemma_encode_concat(a, b);
    let bytes = encode_utf8(a + b + c);
    assert(bytes.subrange(size(a) as int, size(a + b) as int) =~= encode_utf8(b));
    vstd::utf8::encode_utf8_valid_utf8(b);
    vstd::utf8::encode_utf8_decode_utf8(b);
}

/// The text between two bytes at which characters start.
proof fn lemma_between(s: Seq<char>, from: nat, to: nat)
    requires
        at_char(s, from),
        at_char(s, to),
        from <= to,
    ensures
        0 <= char_at(s, from) <= char_at(s, to) <= s.len(),
        byte_slice(s, from as int, to as int) == s.subrange(char_at(s, from), char_at(s, to)),
        size(s.take(char_at(s, from))) == from,
        size(s.take(char_at(s, to))) == to,
        size(byte_slice(s, from as int, to as int)) == to - from,
{
    let a = char_at(s, from);
    let b = char_at(s, to);
    if a > b {
        let middle = s.subrange(b, a);
        assert(s.take(a) =~= s.take(b) + middle);
        lemma_encode_concat(s.take(b), middle);
        assert(encode_utf8(middle).len() > 0) by {
            lemma_encoded(middle);
        }
    } else {
        let middle = s.subrange(a, b);
        assert(s.take(b) =~= s.take(a) + middle);
        assert(s =~= s.take(a) + middle + s.skip(b));
        lemma_part(s.take(a), middle, s.skip(b));
    }
}

/// A text has bytes.
proof fn lemma_encoded(s: Seq<char>)
    requires
        s.len() > 0,
    ensures
        encode_utf8(s).len() > 0,
{
    vstd::utf8::encode_utf8_decode_utf8(s);
    if encode_utf8(s).len() == 0 {
        assert(encode_utf8(s) =~= Seq::<u8>::empty());
        assert(vstd::utf8::decode_utf8(Seq::<u8>::empty()) =~= Seq::<char>::empty());
    }
}

proof fn lemma_ends(s: Seq<char>)
    ensures
        at_char(s, 0),
        at_char(s, size(s)),
        char_at(s, 0) == 0,
        char_at(s, size(s)) == s.len(),
{
    assert(s.take(0) =~= Seq::<char>::empty());
    assert(encode_utf8(s.take(0)).len() == 0);
    assert(s.take(s.len() as int) =~= s);
    assert(encode_utf8(s.take(s.len() as int)).len() == size(s));
    let a = char_at(s, 0);
    if a > 0 {
        lemma_encoded(s.take(a));
    }
    let b = char_at(s, size(s));
    if b < s.len() {
        assert(s =~= s.take(b) + s.skip(b));
        lemma_encode_concat(s.take(b), s.skip(b));
        lemma_encoded(s.skip(b));
    }
}

/// Where the `i`-th start tag ends; the text starts before the first.
spec fn tag_end(found: Seq<Seq<Option<FoundView>>>, i: nat) -> nat {
    if i == 0 {
        0
    } else {
        match_end(found[i - 1], 0)
    }
}

proof fn lemma_tag_end(s: Seq<char>, found: Seq<Seq<Option<FoundView>>>, i: nat)
    requires
        in_order(s, found),
        i <= found.len(),
    ensures
        at_char(s, tag_end(found, i)),
        tag_end(found, i) <= size(s),
        i > 0 ==> tag_end(found, (i - 1) as nat) <= found[i - 1][0]->0.start <= tag_end(found, i),
{
    lemma_ends(s);
    if i > 0 {
        let g = found[i - 1];
        assert(g.len() > 0);
        let k = char_at(s, tag_end(found, i));
        assert(s =~= s.take(k) + s.skip(k));
        lemma_encode_concat(s.take(k), s.skip(k));
        if i > 1 {
            assert(found[i - 2].len() > 0);
            assert(found[i - 2][0]->0.end <= found[i - 1][0]->0.start);
        }
    }
}

/// As long as nothing is marked, what is written is what was read.
proof fn lemma_unmarked(s: Seq<char>, found: Seq<Seq<Option<FoundView>>>, flags: Seq<bool>, n: nat)
    requires
        in_order(s, found),
        n <= found.len(),
    ensures
        marked_until(s, found, flags, n).cursor == tag_end(found, n),
        marked_until(s, found, flags, n).changed == 0 ==> marked_until(s, found, flags, n).output
            == byte_slice(s, 0, tag_end(found, n) as int),
    decreases n,
{
    lemma_tag_end(s, found, n);
    lemma_ends(s);
    lemma_between(s, 0, tag_end(found, n));
    if n > 0 {
        let m = (n - 1) as nat;
        lemma_unmarked(s, found, flags, m);
        assert(found[m as int].len() > 0);
        lemma_tag_end(s, found, m);
        lemma_between(s, 0, tag_end(found, m));
        lemma_between(s, tag_end(found, m), tag_end(found, n));
        let a = char_at(s, tag_end(found, m));
        let b = char_at(s, tag_end(found, n));
        assert(s.subrange(0, a) + s.subrange(a, b) =~= s.subrange(0, b));
    } else {
        assert(s.subrange(0, 0) =~= Seq::<char>::empty());
    }
}

proof fn lemma_nothing_marked(
    source: Seq<char>,
    found: Seq<Seq<Option<FoundView>>>,
    flags: Seq<bool>,
)
    requires
        in_order(source, found),
        marked(source, found, flags).1 == 0,
    ensures
        marked(source, found, flags).0 == source,
{
    let n = found.len();
    let end = tag_end(found, n);
    lemma_unmarked(source, found, flags, n);
    lemma_tag_end(source, found, n);
    lemma_ends(source);
    lemma_between(source, 0, end);
    lemma_between(source, end, size(source));
    let k = char_at(source, end);
    assert(source.subrange(0, k) + source.subrange(k, source.len() as int) =~= source);
}

/// Whether a pattern stands at a place of a text.
spec fn stands_at(s: Seq<char>, pattern: Seq<char>, i: int) -> bool {
    0 <= i && i + pattern.len() <= s.len() && s.subrange(i, i + pattern.len() as int) == pattern
}

proof fn lemma_stands_at(s: Seq<char>, pattern: Seq<char>, i: int)
    requires
        0 <= i <= s.len(),
    ensures
        pattern.is_prefix_of(s.skip(i)) == stands_at(s, pattern, i),
{
    let t = s.skip(i);
    if pattern.is_prefix_of(t) {
        assert(t.subrange(0, pattern.len() as int) =~= pattern);
        assert(s.subrange(i, i + pattern.len() as int) =~= pattern);
    }
    if stands_at(s, pattern, i) {
        assert(t.subrange(0, pattern.len() as int) =~= pattern);
    }
}

proof fn lemma_first(s: Seq<char>, pattern: Seq<char>, from: nat)
    requires
        from <= s.len(),
    ensures
        (match find_from(s, pattern, from) {
            Some(n) => from <= n && stands_at(s, pattern, n as int) && forall|q: int|
                from <= q < n ==> !#[trigger] stands_at(s, pattern, q),
            None => forall|q: int| from <= q ==> !#[trigger] stands_at(s, pattern, q),
        }),
    decreases s.len() - from,
{
    lemma_stands_at(s, pattern, from as int);
    lemma_find_from(s, pattern, from);
    if !pattern.is_prefix_of(s.skip(from as int)) && from < s.len() {
        lemma_first(s, pattern, from + 1);
    }
}

/// Whether the text of an item has a mark in front of the end of the item.
spec fn has_mark(tail: Seq<char>) -> bool {
    exists|p: int| #[trigger]
        stands_at(tail, "<Provis>"@, p) && forall|q: int| #[trigger]
            stands_at(tail, "</Item>"@, q) ==> q >= p + 8
}

/// The part of a text in front of the end of an item.
spec fn body_of(tail: Seq<char>) -> Seq<char> {
    match find(tail, "</Item>"@) {
        Some(n) => tail.take(n as int),
        None => tail,
    }
}

proof fn lemma_spelling()
    ensures
        "<Provis>"@ == seq!['<', 'P', 'r', 'o', 'v', 'i', 's', '>'],
        "</Item>"@ == seq!['<', '/', 'I', 't', 'e', 'm', '>'],
        marks().len() >= 8,
        marks().take(8) == "<Provis>"@,
{
    reveal_strlit("<Provis>");
    reveal_strlit("</Item>");
    reveal_strlit("<Provis>WithoutTotal</Provis><LumpSumItem>Yes</LumpSumItem>");
    assert("<Provis>"@ =~= seq!['<', 'P', 'r', 'o', 'v', 'i', 's', '>']);
    assert("</Item>"@ =~= seq!['<', '/', 'I', 't', 'e', 'm', '>']);
    assert(marks().take(8) =~= "<Provis>"@);
}

proof fn lemma_body(tail: Seq<char>)
    ensures
        contains(body_of(tail), "<Provis>"@) == has_mark(tail),
{
    lemma_spelling();
    let body = body_of(tail);
    lemma_first(tail, "</Item>"@, 0);
    if contains(body, "<Provis>"@) {
        let p = choose|i: int| 0 <= i <= body.len() && #[trigger] "<Provis>"@.is_prefix_of(body.skip(i));
        lemma_stands_at(body, "<Provis>"@, p);
        assert(tail.subrange(p, p + 8) =~= body.subrange(p, p + 8));
        assert(stands_at(tail, "<Provis>"@, p));
        assert forall|q: int| #[trigger] stands_at(tail, "</Item>"@, q) implies q >= p + 8 by {
            if find(tail, "</Item>"@) is Some && q < find(tail, "</Item>"@)->0 {
                assert(!stands_at(tail, "</Item>"@, q));
            }
        }
    }
    if has_mark(tail) {
        let p = choose|p: int| #[trigger]
            stands_at(tail, "<Provis>"@, p) && forall|q: int| #[trigger]
                stands_at(tail, "</Item>"@, q) ==> q >= p + 8;
        assert(p + 8 <= body.len());
        assert(body.subrange(p, p + 8) =~= tail.subrange(p, p + 8));
        lemma_stands_at(body, "<Provis>"@, p);
    }
}

/// A mark at the very front is found.
proof fn lemma_front_mark(tail: Seq<char>)
    ensures
        has_mark(marks() + tail),
{
    lemma_spelling();
    let z = marks() + tail;
    assert(z.subrange(0, 8) =~= marks().take(8));
    assert(stands_at(z, "<Provis>"@, 0));
    assert forall|q: int| #[trigger] stands_at(z, "</Item>"@, q) implies q >= 8 by {
        let t = z.subrange(q, q + 7);
        let m = z.subrange(0, 8);
        assert(t[0] == '<' && t[1] == '/');
        assert(z[q] == '<' && z[q + 1] == '/');
        if q < 8 {
            assert(m[q] == z[q]);
            if q == 0 {
                assert(m[1] == z[1]);
            }
        }
    }
}

/// An end of an item does not reach over a place behind a `>`.
proof fn lemma_not_across(left: Seq<char>, right: Seq<char>, q: int)
    requires
        stands_at(left + right, "</Item>"@, q),
        left.len() == 0 || left.last() == '>',
    ensures
        q + 7 <= left.len() ==> stands_at(left, "</Item>"@, q),
        q + 7 <= left.len() || q >= left.len(),
{
    lemma_spelling();
    let z = left + right;
    let t = z.subrange(q, q + 7);
    if q + 7 <= left.len() {
        assert(left.subrange(q, q + 7) =~= t);
    } else if q < left.len() {
        let k = left.len() - 1 - q;
        assert(t[k] == z[q + k]);
        assert(z[left.len() - 1] == left.last());
    }
}

/// Marks put behind a `>` hide no mark that was there.
proof fn lemma_marks_inserted(left: Seq<char>, right: Seq<char>)
    requires
        has_mark(left + right),
        left.len() == 0 || left.last() == '>',
    ensures
        has_mark(left + (marks() + right)),
{
    lemma_spelling();
    let z = left + right;
    let inner = marks() + right;
    let y = left + inner;
    let n = left.len() as int;
    let p = choose|p: int| #[trigger]
        stands_at(z, "<Provis>"@, p) && forall|q: int| #[trigger]
            stands_at(z, "</Item>"@, q) ==> q >= p + 8;
    let t = z.subrange(p, p + 8);
    if p < n < p + 8 {
        let k = n - 1 - p;
        assert(t[k] == z[p + k]);
        assert(z[n - 1] == left.last());
    }
    if n <= p {
        lemma_front_mark(right);
        let m = choose|m: int| #[trigger]
            stands_at(inner, "<Provis>"@, m) && forall|q: int| #[trigger]
                stands_at(inner, "</Item>"@, q) ==> q >= m + 8;
        assert(y.subrange(n + m, n + m + 8) =~= inner.subrange(m, m + 8));
        assert(stands_at(y, "<Provis>"@, n + m));
        assert forall|q: int| #[trigger] stands_at(y, "</Item>"@, q) implies q >= n + m + 8 by {
            lemma_not_across(left, inner, q);
            if q + 7 <= n {
                assert(z.subrange(q, q + 7) =~= left.subrange(q, q + 7));
                assert(stands_at(z, "</Item>"@, q));
            } else {
                assert(inner.subrange(q - n, q - n + 7) =~= y.subrange(q, q + 7));
                assert(stands_at(inner, "</Item>"@, q - n));
            }
        }
    } else {
        assert(y.subrange(p, p + 8) =~= z.subrange(p, p + 8));
        assert(stands_at(y, "<Provis>"@, p));
        assert forall|q: int| #[trigger] stands_at(y, "</Item>"@, q) implies q >= p + 8 by {
            lemma_not_across(left, inner, q);
            if q + 7 <= n {
                assert(z.subrange(q, q + 7) =~= left.subrange(q, q + 7));
                assert(stands_at(z, "</Item>"@, q));
            }
        }
    }
}

/// The marks behind the `i`-th start tag, counted from one.
spec fn marks_at(
    source: Seq<char>,
    found: Seq<Seq<Option<FoundView>>>,
    flags: Seq<bool>,
    i: nat,
) -> Seq<char> {
    if i - 1 < flags.len() && flags[i - 1] && !contains(
        item_body(source, tag_end(found, i)),
        "<Provis>"@,
    ) {
        marks()
    } else {
        seq![]
    }
}

/// The text from the end of one start tag to the end of the next.
spec fn piece(source: Seq<char>, found: Seq<Seq<Option<FoundView>>>, i: nat) -> Seq<char> {
    byte_slice(source, tag_end(found, (i - 1) as nat) as int, tag_end(found, i) as int)
}

/// What a marked document has behind the marks of its `i`-th start tag.
spec fn marked_rest(
    source: Seq<char>,
    found: Seq<Seq<Option<FoundView>>>,
    flags: Seq<bool>,
    i: nat,
) -> Seq<char>
    decreases found.len() - i,
{
    if i >= found.len() {
        byte_slice(source, tag_end(found, found.len()) as int, size(source) as int)
    } else {
        piece(source, found, i + 1) + (marks_at(source, found, flags, i + 1) + marked_rest(
            source,
            found,
            flags,
            i + 1,
        ))
    }
}

/// What a document has behind its `i`-th start tag.
spec fn plain_rest(source: Seq<char>, found: Seq<Seq<Option<FoundView>>>, i: nat) -> Seq<char> {
    byte_slice(source, tag_end(found, i) as int, size(source) as int)
}

/// Whether every start tag ends as tags do.
spec fn tags_close(found: Seq<Seq<Option<FoundView>>>) -> bool {
    forall|i: int|
        0 <= i < found.len() ==> (#[trigger] found[i])[0]->0.text.len() > 0
            && found[i][0]->0.text.last() == '>'
}

proof fn lemma_piece(source: Seq<char>, found: Seq<Seq<Option<FoundView>>>, i: nat)
    requires
        in_order(source, found),
        0 < i <= found.len(),
    ensures
        plain_rest(source, found, (i - 1) as nat) == piece(source, found, i) + plain_rest(
            source,
            found,
            i,
        ),
        size(piece(source, found, i)) == tag_end(found, i) - tag_end(found, (i - 1) as nat),
        tags_close(found) ==> piece(source, found, i).len() > 0 && piece(source, found, i).last() == '>',
{
    let m = (i - 1) as nat;
    lemma_tag_end(source, found, i);
    lemma_tag_end(source, found, m);
    lemma_ends(source);
    assert(found[m as int].len() > 0);
    let start = found[m as int][0]->0.start;
    let a = tag_end(found, m);
    let b = tag_end(found, i);
    lemma_between(source, a, b);
    lemma_between(source, b, size(source));
    lemma_between(source, a, size(source));
    let x = char_at(source, a);
    let y = char_at(source, b);
    assert(source.subrange(x, source.len() as int) =~= source.subrange(x, y) + source.subrange(
        y,
        source.len() as int,
    ));
    lemma_between(source, a, start);
    lemma_between(source, start, b);
    if tags_close(found) {
        let text = found[m as int][0]->0.text;
        assert(text == source.subrange(char_at(source, start), y));
        assert(text.len() > 0 && text.last() == '>');
        assert(piece(source, found, i).last() == source[y - 1]);
        assert(text.last() == source[y - 1]);
    }
}

/// What is written up to the `i`-th start tag and behind it is the marked document.
proof fn lemma_written(
    source: Seq<char>,
    found: Seq<Seq<Option<FoundView>>>,
    flags: Seq<bool>,
    i: nat,
)
    requires
        in_order(source, found),
        i <= found.len(),
    ensures
        marked(source, found, flags).0 == marked_until(source, found, flags, i).output + marked_rest(
            source,
            found,
            flags,
            i,
        ),
    decreases found.len() - i,
{
    lemma_unmarked(source, found, flags, i);
    if i < found.len() {
        lemma_written(source, found, flags, i + 1);
        lemma_step(source, found, flags, i + 1);
        let out = marked_until(source, found, flags, i).output;
        let rest = marked_rest(source, found, flags, i + 1);
        let p = piece(source, found, i + 1);
        let m = marks_at(source, found, flags, i + 1);
        assert(out + p + m + rest =~= out + (p + (m + rest)));
    }
}

proof fn lemma_step(
    source: Seq<char>,
    found: Seq<Seq<Option<FoundView>>>,
    flags: Seq<bool>,
    i: nat,
)
    requires
        in_order(source, found),
        0 < i <= found.len(),
    ensures
        marked_until(source, found, flags, i).output == marked_until(
            source,
            found,
            flags,
            (i - 1) as nat,
        ).output + piece(source, found, i) + marks_at(source, found, flags, i),
        size(marked_until(source, found, flags, i).output) == tag_end(found, i) + size(marks())
            * marked_until(source, found, flags, i).changed,
    decreases i,
{
    let m = (i - 1) as nat;
    lemma_unmarked(source, found, flags, m);
    lemma_piece(source, found, i);
    assert(found[m as int].len() > 0);
    let before = marked_until(source, found, flags, m);
    let p = piece(source, found, i);
    let k = marks_at(source, found, flags, i);
    assert(marked_until(source, found, flags, i).output =~= before.output + p + k);
    assert(encode_utf8(Seq::<char>::empty()).len() == 0);
    if m > 0 {
        lemma_step(source, found, flags, m);
    } else {
        assert(before.output =~= Seq::<char>::empty());
        assert(size(marks()) * 0 == 0);
    }
    lemma_encode_concat(before.output, p);
    lemma_encode_concat(before.output + p, k);
    let c = before.changed;
    assert(size(marks()) * (c + 1) == size(marks()) * c + size(marks())) by (nonlinear_arith);
}

/// A mark that is found behind a start tag is found there in the marked document too.
proof fn lemma_mark_stays(
    source: Seq<char>,
    found: Seq<Seq<Option<FoundView>>>,
    flags: Seq<bool>,
    i: nat,
    front: Seq<char>,
)
    requires
        in_order(source, found),
        tags_close(found),
        i <= found.len(),
        has_mark(front + plain_rest(source, found, i)),
    ensures
        has_mark(front + marked_rest(source, found, flags, i)),
    decreases found.len() - i,
{
    if i < found.len() {
        lemma_piece(source, found, i + 1);
        let p = piece(source, found, i + 1);
        let rest = plain_rest(source, found, i + 1);
        assert(front + (p + rest) =~= (front + p) + rest);
        lemma_mark_stays(source, found, flags, i + 1, front + p);
        let after = marked_rest(source, found, flags, i + 1);
        let k = marks_at(source, found, flags, i + 1);
        assert((front + p).last() == p.last());
        if k == marks() {
            lemma_marks_inserted(front + p, after);
        } else {
            assert(k + after =~= after);
        }
        assert(front + (p + (k + after)) =~= (front + p) + (k + after));
    }
}

/// Where a start tag ends in a document that has been marked: as many marks further on as
/// stand in front of it.
spec fn moved(
    source: Seq<char>,
    found: Seq<Seq<Option<FoundView>>>,
    flags: Seq<bool>,
    again: Seq<Seq<Option<FoundView>>>,
) -> bool {
    &&& again.len() == found.len()
    &&& forall|i: int|
        0 <= i < found.len() ==> (#[trigger] again[i]).len() > 0 && again[i][0] is Some
            && again[i][0]->0.end == found[i][0]->0.end + size(marks()) * marked_until(
            source,
            found,
            flags,
            i as nat,
        ).changed
}

proof fn lemma_again(
    source: Seq<char>,
    found: Seq<Seq<Option<FoundView>>>,
    flags: Seq<bool>,
    again: Seq<Seq<Option<FoundView>>>,
    i: nat,
)
    requires
        in_order(source, found),
        tags_close(found),
        moved(source, found, flags, again),
        i <= found.len(),
    ensures
        ({
            let x = marked(source, found, flags).0;
            let second = marked_until(x, again, flags, i);
            &&& second.changed == 0
            &&& second.cursor == (if i == 0 {
                0
            } else {
                size(
                    marked_until(source, found, flags, (i - 1) as nat).output + piece(
                        source,
                        found,
                        i,
                    ),
                )
            })
            &&& second.output == (if i == 0 {
                seq![]
            } else {
                marked_until(source, found, flags, (i - 1) as nat).output + piece(source, found, i)
            })
        }),
    decreases i,
{
    let x = marked(source, found, flags).0;
    if i > 0 {
        let m = (i - 1) as nat;
        lemma_again(source, found, flags, again, m);
        lemma_written(source, found, flags, i);
        lemma_piece(source, found, i);
        lemma_step(source, found, flags, i);
        let out = marked_until(source, found, flags, m).output;
        let p = piece(source, found, i);
        let k = marks_at(source, found, flags, i);
        let rest = marked_rest(source, found, flags, i);
        let front = if m == 0 {
            seq![]
        } else {
            marked_until(source, found, flags, (m - 1) as nat).output + piece(source, found, m)
        };
        let marked_before = if m == 0 {
            seq![]
        } else {
            marks_at(source, found, flags, m)
        };
        if m > 0 {
            lemma_step(source, found, flags, m);
        }
        assert(out =~= front + marked_before);
        assert(x =~= front + (marked_before + p) + (k + rest));
        lemma_part(front, marked_before + p, k + rest);
        lemma_encode_concat(out, p);
        assert(front + (marked_before + p) =~= out + p);
        assert(again[m as int].len() > 0);
        assert(found[m as int].len() > 0);
        if m == 0 {
            assert(out =~= Seq::<char>::empty());
            assert(encode_utf8(Seq::<char>::empty()).len() == 0);
            assert(size(marks()) * 0 == 0);
        }
        let end = size(out + p);
        assert(match_end(again[m as int], 0) == end);
        let none = Seq::<char>::empty();
        assert(x =~= (out + p) + (k + rest) + none);
        lemma_part(out + p, k + rest, none);
        assert((out + p) + (k + rest) =~= x);
        assert(byte_slice(x, end as int, size(x) as int) == k + rest);
        if m < flags.len() && flags[m as int] {
            if k == marks() {
                lemma_front_mark(rest);
            } else {
                lemma_body(plain_rest(source, found, i));
                assert(none + plain_rest(source, found, i) =~= plain_rest(source, found, i));
                lemma_mark_stays(source, found, flags, i, none);
                assert(none + rest =~= rest);
                assert(k + rest =~= rest);
            }
            lemma_body(k + rest);
        }
    }
}

/// Marking a document a second time changes nothing and counts nothing, where its start
/// tags stand where they stood, moved by the marks in front of them.
proof fn lemma_marked_once(
    source: Seq<char>,
    found: Seq<Seq<Option<FoundView>>>,
    flags: Seq<bool>,
    again: Seq<Seq<Option<FoundView>>>,
)
    requires
        in_order(source, found),
        tags_close(found),
        moved(source, found, flags, again),
    ensures
        marked(marked(source, found, flags).0, again, flags) == (marked(source, found, flags).0, 0nat),
{
    let x = marked(source, found, flags).0;
    let n = found.len();
    lemma_again(source, found, flags, again, n);
    if n == 0 {
        lemma_ends(x);
        lemma_between(x, 0, size(x));
        assert(x.subrange(0, x.len() as int) =~= x);
        assert(seq![] + x =~= x);
    } else {
        let m = (n - 1) as nat;
        lemma_written(source, found, flags, n);
        lemma_step(source, found, flags, n);
        let out = marked_until(source, found, flags, m).output;
        let p = piece(source, found, n);
        let k = marks_at(source, found, flags, n);
        let rest = marked_rest(source, found, flags, n);
        let none = Seq::<char>::empty();
        assert(x =~= (out + p) + (k + rest));
        assert(x =~= (out + p) + (k + rest) + none);
        lemma_part(out + p, k + rest, none);
    }
}

/// A character starts behind every part of a text, and only there.
proof fn lemma_char_at(s: Seq<char>, k: nat)
    requires
        k <= s.len(),
    ensures
        at_char(s, size(s.take(k as int))),
        char_at(s, size(s.take(k as int))) == k,
{
    let n = size(s.take(k as int));
    assert(n == encode_utf8(s.take(k as int)).len());
    let a = char_at(s, n);
    if a < k {
        let middle = s.subrange(a, k as int);
        assert(s.take(k as int) =~= s.take(a) + middle);
        lemma_encode_concat(s.take(a), middle);
        lemma_encoded(middle);
    } else if a > k {
        let middle = s.subrange(k as int, a);
        assert(s.take(a) =~= s.take(k as int) + middle);
        lemma_encode_concat(s.take(k as int), middle);
        lemma_encoded(middle);
    }
}

/// The text between two places, by their bytes.
proof fn lemma_slice(s: Seq<char>, a: nat, b: nat)
    requires
        a <= b <= s.len(),
    ensures
        size(s.take(a as int)) <= size(s.take(b as int)),
        byte_slice(s, size(s.take(a as int)) as int, size(s.take(b as int)) as int) == s.subrange(
            a as int,
            b as int,
        ),
{
    let middle = s.subrange(a as int, b as int);
    assert(s.take(b as int) =~= s.take(a as int) + middle);
    lemma_encode_concat(s.take(a as int), middle);
    lemma_char_at(s, a);
    lemma_char_at(s, b);
    lemma_between(s, size(s.take(a as int)), size(s.take(b as int)));
}

/// A start tag is at least `<Item` and a `>`.
proof fn lemma_tag_from(s: Seq<char>, i: nat)
    ensures
        (match tag_from(s, i) {
            Some(end) => i + 6 <= end <= s.len() && s[end - 1] == '>' && forall|j: int|
                i + 5 <= j < end - 1 ==> s[j] != '>',
            None => true,
        }),
{
    if let Some(end) = tag_from(s, i) {
        let rest = s.skip(i as int + 5);
        let n = position_of(rest, '>') as int;
        lemma_position_of_found(rest, '>');
        assert(rest[n] == s[end - 1]);
        assert forall|j: int| i + 5 <= j < end - 1 implies s[j] != '>' by {
            assert(rest[j - i - 5] == s[j]);
        }
    }
}

/// Tags stand one behind the other.
proof fn lemma_tags(s: Seq<char>, from: nat, i: int)
    requires
        0 <= i < item_tags(s, from).len(),
    ensures
        ({
            let tags = item_tags(s, from);
            &&& from <= tags[i].0
            &&& tags[i].0 + 6 <= tags[i].1 <= s.len()
            &&& s[tags[i].1 - 1] == '>'
            &&& i > 0 ==> tags[i - 1].1 <= tags[i].0
        }),
    decreases s.len() - from,
{
    lemma_tag_from(s, from);
    match tag_from(s, from) {
        Some(end) => {
            let rest = item_tags(s, end);
            assert(item_tags(s, from) =~= seq![(from, end)] + rest);
            if i > 0 {
                lemma_tags(s, end, i - 1);
                if i == 1 {
                    assert(item_tags(s, from)[0] == (from, end));
                }
            }
        },
        None => {
            lemma_tags(s, from + 1, i);
        },
    }
}

proof fn lemma_tags_apart(s: Seq<char>, i: int, j: int)
    requires
        0 <= i < j < item_tags(s, 0).len(),
    ensures
        item_tags(s, 0)[i].1 <= item_tags(s, 0)[j].0,
    decreases j - i,
{
    lemma_tags(s, 0, j);
    if i < j - 1 {
        lemma_tags_apart(s, i, j - 1);
        lemma_tags(s, 0, j - 1);
    }
}

/// The start tags of items are in order and end in a `>`.
proof fn lemma_tag_matches(s: Seq<char>)
    ensures
        in_order(s, tag_matches(s)),
        tags_close(tag_matches(s)),
{
    let tags = item_tags(s, 0);
    let found = tag_matches(s);
    assert forall|i: int| 0 <= i < found.len() implies {
        &&& (#[trigger] found[i]).len() > 0
        &&& found[i][0] is Some
        &&& found[i][0]->0.start <= found[i][0]->0.end
        &&& at_char(s, found[i][0]->0.start)
        &&& at_char(s, found[i][0]->0.end)
        &&& found[i][0]->0.text == byte_slice(
            s,
            found[i][0]->0.start as int,
            found[i][0]->0.end as int,
        )
        &&& found[i][0]->0.text.len() > 0
        &&& found[i][0]->0.text.last() == '>'
    } by {
        lemma_tags(s, 0, i);
        lemma_char_at(s, tags[i].0);
        lemma_char_at(s, tags[i].1);
        lemma_slice(s, tags[i].0, tags[i].1);
        assert(found[i] == match_of(s, tags[i].0, tags[i].1));
        assert(found[i][0]->0.text.last() == s[tags[i].1 - 1]);
    }
    assert forall|i: int, j: int| 0 <= i < j < found.len() implies (#[trigger] found[i])[0]->0.end
        <= (#[trigger] found[j])[0]->0.start by {
        lemma_tags_apart(s, i, j);
        lemma_tags(s, 0, i);
        lemma_tags(s, 0, j);
        assert(found[i] == match_of(s, tags[i].0, tags[i].1));
        assert(found[j] == match_of(s, tags[j].0, tags[j].1));
        lemma_slice(s, tags[i].1, tags[j].0);
    }
}

/// Where the first tag of a text stands in another text with the same characters up to
/// its end.
proof fn lemma_first_tag(s: Seq<char>, from: nat, z: Seq<char>, at: nat)
    requires
        item_tags(s, from).len() > 0,
        at + item_tags(s, from)[0].1 - from <= z.len(),
        z.subrange(at as int, at + item_tags(s, from)[0].1 - from) == s.subrange(
            from as int,
            item_tags(s, from)[0].1 as int,
        ),
    ensures
        ({
            let (a, b) = item_tags(s, from)[0];
            &&& from <= a <= b
            &&& item_tags(z, at) == seq![((at + a - from) as nat, (at + b - from) as nat)]
                + item_tags(z, (at + b - from) as nat)
        }),
    decreases s.len() - from,
{
    let (a, b) = item_tags(s, from)[0];
    lemma_tags(s, from, 0);
    lemma_tag_from(s, from);
    let same = s.subrange(from as int, b as int);
    assert forall|j: int| at <= j < at + b - from implies #[trigger] z[j] == s[j - at + from] by {
        assert(same[j - at] == s[j - at + from]);
        assert(z.subrange(at as int, at + b - from)[j - at] == z[j]);
    }
    assert(s.subrange(from as int, from as int + 5) =~= z.subrange(at as int, at as int + 5));
    match tag_from(s, from) {
        Some(end) => {
            assert(item_tags(s, from) =~= seq![(from, end)] + item_tags(s, end));
            let rest = z.skip(at as int + 5);
            let n = end - from - 6;
            assert forall|k: int| 0 <= k < n implies rest[k] != '>' by {
                assert(rest[k] == z[at + 5 + k]);
                assert(s[from + 5 + k] != '>');
            }
            assert(rest[n] == z[at + 5 + n]);
            lemma_position_of(rest, '>', n);
            assert(z[at as int + 5] == s[from as int + 5]);
            assert(tag_from(z, at) == Some((at + end - from) as nat));
        },
        None => {
            let rest = s.skip(from as int + 5);
            lemma_tags(s, from + 1, 0);
            lemma_position_of_found(rest, '>');
            assert(rest[b - from - 6] == s[b - 1]);
            assert(position_of(rest, '>') < rest.len());
            assert(z[at as int + 5] == s[from as int + 5]);
            assert(tag_from(z, at) is None);
            assert(z.subrange(at as int + 1, at + 1 + b - (from + 1)) =~= s.subrange(
                from as int + 1,
                b as int,
            ));
            lemma_first_tag(s, from + 1, z, at + 1);
        },
    }
}

/// Behind the last tag of a text there is none, wherever that end stands.
proof fn lemma_no_tag(s: Seq<char>, from: nat, z: Seq<char>, at: nat)
    requires
        from <= s.len(),
        at <= z.len(),
        item_tags(s, from).len() == 0,
        z.skip(at as int) == s.skip(from as int),
    ensures
        item_tags(z, at).len() == 0,
    decreases s.len() - from,
{
    let tail = z.skip(at as int);
    assert(tail == s.skip(from as int));
    assert(tail.len() == z.len() - at);
    assert(tail.len() == s.len() - from);
    if from < s.len() {
        assert forall|j: int| at <= j < z.len() implies #[trigger] z[j] == s[j - at + from] by {
            assert(tail[j - at] == z[j]);
            assert(tail[j - at] == s[j - at + from]);
        }
        if from + 5 < s.len() {
            assert(s.subrange(from as int, from as int + 5) =~= z.subrange(at as int, at as int + 5));
            assert(z.skip(at as int + 5) =~= s.skip(from as int + 5));
            assert(z[at as int + 5] == s[from as int + 5]);
        }
        assert(tag_from(s, from) is None);
        assert(tag_from(z, at) is None);
        assert(z.skip(at as int + 1) =~= s.skip(from as int + 1));
        lemma_no_tag(s, from + 1, z, at + 1);
    }
}

/// No start tag of an item starts in the marks.
proof fn lemma_marks_spelled(j: int)
    requires
        0 <= j < marks().len(),
    ensures
        marks().len() == 59,
        marks().last() == '>',
        marks()[j] == '<' && j + 1 < marks().len() ==> marks()[j + 1] != 'I',
{
    reveal_strlit("<Provis>WithoutTotal</Provis><LumpSumItem>Yes</LumpSumItem>");
    let m = seq![
        '<', 'P', 'r', 'o', 'v', 'i', 's', '>', 'W', 'i', 't', 'h', 'o', 'u', 't', 'T', 'o', 't',
        'a', 'l', '<', '/', 'P', 'r', 'o', 'v', 'i', 's', '>', '<', 'L', 'u', 'm', 'p', 'S', 'u',
        'm', 'I', 't', 'e', 'm', '>', 'Y', 'e', 's', '<', '/', 'L', 'u', 'm', 'p', 'S', 'u', 'm',
        'I', 't', 'e', 'm', '>',
    ];
    assert(marks() =~= m);
    assert(m[j] == '<' ==> j == 0 || j == 20 || j == 29 || j == 45);
}

proof fn lemma_no_tag_in_marks(z: Seq<char>, at: nat, j: nat)
    requires
        j <= marks().len(),
        at + marks().len() <= z.len(),
        z.subrange(at as int, at as int + marks().len()) == marks(),
    ensures
        item_tags(z, at + j) == item_tags(z, at + marks().len()),
    decreases marks().len() - j,
{
    if j < marks().len() {
        lemma_no_tag_in_marks(z, at, j + 1);
        lemma_marks_spelled(j as int);
        let n = marks().len();
        reveal_strlit("<Item");
        let i = at + j;
        assert(z.subrange(at as int, at as int + n)[j as int] == z[at as int + j]);
        assert(z.subrange(at as int, at as int + n)[n - 1] == z[at as int + n - 1]);
        if i + 5 < z.len() && z.subrange(i as int, i as int + 5) == "<Item"@ {
            let t = z.subrange(i as int, i as int + 5);
            assert(t[0] == '<' && t[1] == 'I' && t[2] == 't' && t[3] == 'e' && t[4] == 'm');
            assert(t[0] == z[at as int + j] && t[1] == z[at as int + j + 1]);
            if j + 1 < n {
                assert(z.subrange(at as int, at as int + n)[j as int + 1] == z[at as int + j + 1]);
            } else {
                assert(z[at as int + j] == marks().last());
            }
        }
        assert(tag_from(z, i) is None);
    }
}

/// Where the `i`-th tag ends; the text starts before the first.
spec fn place(s: Seq<char>, i: nat) -> nat {
    if i == 0 {
        0
    } else {
        item_tags(s, 0)[i - 1].1
    }
}

proof fn lemma_place(s: Seq<char>, i: nat)
    requires
        i <= item_tags(s, 0).len(),
    ensures
        place(s, i) <= s.len(),
        tag_end(tag_matches(s), i) == size(s.take(place(s, i) as int)),
        i > 0 ==> place(s, (i - 1) as nat) <= place(s, i),
{
    let tags = item_tags(s, 0);
    let found = tag_matches(s);
    if i > 0 {
        lemma_tags(s, 0, i - 1);
        assert(found[i - 1] == match_of(s, tags[i - 1].0, tags[i - 1].1));
        if i > 1 {
            lemma_tags(s, 0, i - 2);
        }
    } else {
        assert(s.take(0) =~= Seq::<char>::empty());
    }
}

/// The tags behind the `i`-th one are those that are found from its end on.
proof fn lemma_tags_behind(s: Seq<char>, from: nat, i: nat)
    requires
        0 < i <= item_tags(s, from).len(),
    ensures
        item_tags(s, item_tags(s, from)[i - 1].1) == item_tags(s, from).skip(i as int),
    decreases s.len() - from,
{
    lemma_tag_from(s, from);
    match tag_from(s, from) {
        Some(end) => {
            let rest = item_tags(s, end);
            let tags = item_tags(s, from);
            assert(tags =~= seq![(from, end)] + rest);
            if i > 1 {
                lemma_tags_behind(s, end, (i - 1) as nat);
                assert(tags[i - 1] == rest[i - 2]);
                assert(tags.skip(i as int) =~= rest.skip(i - 1));
            } else {
                assert(tags[0] == (from, end));
                assert(tags.skip(1) =~= rest);
            }
        },
        None => {
            lemma_tags_behind(s, from + 1, i);
        },
    }
}

proof fn lemma_tags_from_place(s: Seq<char>, i: nat)
    requires
        i <= item_tags(s, 0).len(),
    ensures
        item_tags(s, place(s, i)) == item_tags(s, 0).skip(i as int),
{
    if i > 0 {
        lemma_tags_behind(s, 0, i);
    } else {
        assert(item_tags(s, 0).skip(0) =~= item_tags(s, 0));
    }
}

/// What stands between the ends of two tags.
proof fn lemma_piece_chars(s: Seq<char>, i: nat)
    requires
        0 < i <= item_tags(s, 0).len(),
    ensures
        piece(s, tag_matches(s), i) == s.subrange(
            place(s, (i - 1) as nat) as int,
            place(s, i) as int,
        ),
{
    lemma_place(s, i);
    lemma_place(s, (i - 1) as nat);
    lemma_slice(s, place(s, (i - 1) as nat), place(s, i));
}

/// The tags of a marked document behind the marks of the `i`-th one.
proof fn lemma_marked_tags(source: Seq<char>, flags: Seq<bool>, i: nat)
    requires
        i <= item_tags(source, 0).len(),
    ensures
        ({
            let found = tag_matches(source);
            let x = marked(source, found, flags).0;
            let out = marked_until(source, found, flags, i).output;
            let tags = item_tags(x, out.len());
            &&& tags.len() == found.len() - i
            &&& i < found.len() ==> {
                &&& tags[0].1 == out.len() + piece(source, found, i + 1).len()
                &&& tags.skip(1) == item_tags(
                    x,
                    marked_until(source, found, flags, i + 1).output.len(),
                )
            }
        }),
    decreases item_tags(source, 0).len() - i,
{
    let found = tag_matches(source);
    let x = marked(source, found, flags).0;
    let out = marked_until(source, found, flags, i).output;
    let n = found.len();
    lemma_tag_matches(source);
    lemma_written(source, found, flags, i);
    lemma_place(source, i);
    lemma_tags_from_place(source, i);
    let rest = marked_rest(source, found, flags, i);
    assert(x.skip(out.len() as int) =~= rest);
    if i == n {
        assert(source.take(source.len() as int) =~= source);
        lemma_slice(source, place(source, n), source.len());
        assert(rest =~= source.skip(place(source, n) as int));
        lemma_no_tag(source, place(source, n), x, out.len());
    } else {
        lemma_marked_tags(source, flags, i + 1);
        lemma_step(source, found, flags, i + 1);
        lemma_written(source, found, flags, i + 1);
        lemma_piece_chars(source, i + 1);
        lemma_place(source, i + 1);
        let p = piece(source, found, i + 1);
        let k = marks_at(source, found, flags, i + 1);
        let after = marked_rest(source, found, flags, i + 1);
        let next = marked_until(source, found, flags, i + 1).output;
        let here = item_tags(source, place(source, i));
        assert(here[0] == item_tags(source, 0)[i as int]);
        assert(here[0].1 == place(source, i + 1));
        assert(x =~= out + p + k + after);
        assert(x.subrange(out.len() as int, out.len() as int + p.len()) =~= p);
        lemma_first_tag(source, place(source, i), x, out.len());
        let tags = item_tags(x, out.len());
        let end = out.len() + p.len();
        assert(tags =~= seq![tags[0]] + item_tags(x, end));
        assert(tags.skip(1) =~= item_tags(x, end));
        if k == marks() {
            assert(x.subrange(end as int, end as int + marks().len()) =~= marks());
            lemma_no_tag_in_marks(x, end, 0);
        }
        assert(next.len() == end + k.len());
    }
}

proof fn lemma_marked_place(source: Seq<char>, flags: Seq<bool>, i: nat)
    requires
        i < item_tags(source, 0).len(),
    ensures
        ({
            let found = tag_matches(source);
            let x = marked(source, found, flags).0;
            let out = marked_until(source, found, flags, i).output;
            let tags = item_tags(x, 0);
            &&& tags.len() == found.len()
            &&& tags[i as int].1 == out.len() + piece(source, found, i + 1).len()
            &&& tags.skip(i as int) == item_tags(x, out.len())
        }),
    decreases i,
{
    let found = tag_matches(source);
    let x = marked(source, found, flags).0;
    let tags = item_tags(x, 0);
    lemma_marked_tags(source, flags, i);
    if i == 0 {
        assert(tags.skip(0) =~= tags);
    } else {
        lemma_marked_place(source, flags, (i - 1) as nat);
        lemma_marked_tags(source, flags, (i - 1) as nat);
        assert(tags.skip(i - 1).skip(1) =~= tags.skip(i as int));
        assert(tags.skip(i as int)[0] == tags[i as int]);
    }
}

/// The tags of a marked document stand where they stood, moved by the marks.
proof fn lemma_moved(source: Seq<char>, flags: Seq<bool>)
    ensures
        moved(
            source,
            tag_matches(source),
            flags,
            tag_matches(marked(source, tag_matches(source), flags).0),
        ),
{
    let found = tag_matches(source);
    let x = marked(source, found, flags).0;
    let again = tag_matches(x);
    let tags = item_tags(x, 0);
    lemma_tag_matches(source);
    lemma_marked_tags(source, flags, 0);
    assert(marked_until(source, found, flags, 0).output.len() == 0);
    assert forall|i: int| 0 <= i < found.len() implies (#[trigger] again[i]).len() > 0
        && again[i][0] is Some && again[i][0]->0.end == found[i][0]->0.end + size(marks())
        * marked_until(source, found, flags, i as nat).changed by {
        let k = i as nat;
        lemma_marked_place(source, flags, k);
        lemma_written(source, found, flags, k);
        lemma_piece(source, found, k + 1);
        assert(found[i].len() > 0);
        let out = marked_until(source, found, flags, k).output;
        let p = piece(source, found, k + 1);
        let rest = marked_rest(source, found, flags, k);
        assert(x =~= out + rest);
        assert(x.take((out.len() + p.len()) as int) =~= out + p);
        lemma_encode_concat(out, p);
        assert(again[i] == match_of(x, tags[i].0, tags[i].1));
        if k > 0 {
            lemma_step(source, found, flags, k);
        } else {
            assert(out =~= Seq::<char>::empty());
            assert(encode_utf8(Seq::<char>::empty()).len() == 0);
            assert(size(marks()) * 0 == 0);
        }
    }
}

/// A document in which nothing is marked stays as it is.
pub proof fn law_no_marks_no_change(source: Seq<char>, flags: Seq<bool>)
    ensures
        with_marks(source, flags).1 == 0 ==> with_marks(source, flags).0 == source,
{
    lemma_tag_matches(source);
    if with_marks(source, flags).1 == 0 {
        lemma_nothing_marked(source, tag_matches(source), flags);
    }
}

/// Marking a document a second time changes nothing and counts nothing.
pub proof fn law_marked_once(source: Seq<char>, flags: Seq<bool>)
    ensures
        with_marks(with_marks(source, flags).0, flags) == (with_marks(source, flags).0, 0nat),
{
    let found = tag_matches(source);
    let x = marked(source, found, flags).0;
    lemma_tag_matches(source);
    lemma_moved(source, flags);
    lemma_marked_once(source, found, flags, tag_matches(x));
}

} // verus!
