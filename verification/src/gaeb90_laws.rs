//! What reading gives back of a written GAEB 90 offer.

use crate::clock::{lemma_short_date, MomentView};
use crate::decimal::{
    lemma_digits_len, lemma_pow10_add, lemma_pow10_positive, magnitude, pow10, Dec,
};
use crate::document::{empty_item, DocumentView, ItemView, RowView};
use crate::gaeb90::{
    columns, cp850_char, cp850_text, gaeb_90, implied_decimal, lemma_run_len, lossless, masked_oz,
    oz_parts, read_until, records_of, run_len, ReadingView, CP850_HIGH,
};
use crate::gaeb90_export::{
    boq_record, compact, cp850_byte, cp850_bytes, currency_record, cut, d84,
    end_record, filled, fully_priced, head_records, header_record, items_of,
    lemma_compact_ascii, lemma_digits_ascii, lemma_end_record_ascii, lemma_filled_ascii,
    lemma_filled_len, lemma_header_record_ascii, lemma_mask, lemma_price_digits,
    lemma_price_field_ascii, lemma_price_record_ascii, lengths_of,
    marker, markers, mask_of, numeric, or_else, price_digits, price_field, price_record,
    price_records, project_record, record_line, record_lines, shared_lengths, times, total, Place,
};
use crate::text::{
    all_digits, digits, digits_value, is_digit, is_space, join, lemma_ascii_bytes, lemma_ascii_text,
    lemma_digits, lemma_position_of, lemma_position_of_found, lines, pad_left, position_of, split,
    trim, trim_end, trim_start,
};
use vstd::prelude::*;
use vstd::utf8::{decode_utf8, encode_utf8, is_ascii_chars};

verus! {

/// Where a text ends in a line feed, the lines of what follows are simply added.
pub proof fn lemma_lines_append(front: Seq<char>, rest: Seq<char>)
    requires
        front.len() == 0 || front.last() == '\n',
    ensures
        lines(front + rest) == lines(front) + lines(rest),
    decreases front.len(),
{
    if front.len() == 0 {
        assert(front + rest =~= rest);
        assert(lines(front) + lines(rest) =~= lines(rest));
    } else {
        let n = position_of(front, '\n') as int;
        lemma_position_of_found(front, '\n');
        if n == front.len() {
            assert(front[front.len() - 1] != '\n');
        }
        let all = front + rest;
        assert forall|i: int| 0 <= i < n implies all[i] != '\n' by {
            assert(all[i] == front[i]);
        }
        assert(all[n] == front[n]);
        lemma_position_of(all, '\n', n);
        assert(all.take(n) =~= front.take(n));
        assert(all.skip(n + 1) =~= front.skip(n + 1) + rest);
        lemma_lines_append(front.skip(n + 1), rest);
        assert(lines(all) =~= lines(front) + lines(rest));
    }
}

/// A line that ends in a carriage return and a line feed.
pub proof fn lemma_lines_single(a: Seq<char>)
    requires
        !a.contains('\n'),
    ensures
        lines(a + seq!['\r', '\n']) == seq![a],
{
    let s = a + seq!['\r', '\n'];
    let n = a.len() as int + 1;
    assert forall|i: int| 0 <= i < n implies s[i] != '\n' by {
        if i < a.len() {
            assert(a.contains(a[i]));
        }
    }
    lemma_position_of(s, '\n', n);
    assert(s.take(n).drop_last() =~= a);
    assert(s.skip(n + 1) =~= Seq::<char>::empty());
    assert(lines(s.skip(n + 1)) =~= Seq::<Seq<char>>::empty());
    assert(lines(s) =~= seq![a]);
}

/// What a line of an offer reads as: the characters that code page 850 has kept.
pub open spec fn kept(s: Seq<char>) -> Seq<char> {
    cp850_text(cp850_bytes(s))
}

/// A character that an offer in code page 850 keeps.
pub open spec fn german(c: char) -> bool {
    c <= '\u{7f}' || c == 'ä' || c == 'ö' || c == 'ü' || c == 'Ä' || c == 'Ö' || c == 'Ü' || c == 'ß'
        || c == 'é'
}

proof fn lemma_kept_char(c: char)
    ensures
        german(c) ==> cp850_char(cp850_byte(c)) == c,
        c != '\n' ==> cp850_char(cp850_byte(c)) != '\n',
{
    reveal_strlit(
        "ÇüéâäàåçêëèïîìÄÅÉæÆôöòûùÿÖÜø£Ø×ƒáíóúñÑªº¿®¬½¼¡«»░▒▓│┤ÁÂÀ©╣║╗╝¢¥┐└┴┬├─┼ãÃ╚╔╩╦╠═╬¤ðÐÊËÈıÍÎÏ┘┌█▄¦Ì▀ÓßÔÒõÕµþÞÚÛÙýÝ¯´\u{00AD}±‗¾¶§÷¸°¨·¹³²■\u{00A0}",
    );
    let t = CP850_HIGH@;
    assert(t[4] == 'ä' && t[0x14] == 'ö' && t[1] == 'ü' && t[0x0e] == 'Ä' && t[0x19] == 'Ö' && t[0x1a]
        == 'Ü' && t[0x61] == 'ß' && t[2] == 'é');
}

proof fn lemma_kept(s: Seq<char>)
    ensures
        kept(s).len() == s.len(),
        is_ascii_chars(s) ==> kept(s) == s,
        !s.contains('\n') ==> !kept(s).contains('\n'),
{
    assert forall|i: int| 0 <= i < s.len() implies (s[i] <= '\u{7f}' ==> #[trigger] kept(s)[i] == s[i])
        && (s[i] != '\n' ==> kept(s)[i] != '\n') by {
        lemma_kept_char(s[i]);
    }
    if is_ascii_chars(s) {
        assert(kept(s) =~= s);
    }
    if !s.contains('\n') {
        assert forall|i: int| 0 <= i < s.len() implies kept(s)[i] != '\n' by {
            assert(s.contains(s[i]));
        }
    }
}

/// ASCII characters, umlauts, `ß` and `é` are read as they were written.
pub proof fn law_german_text_kept(s: Seq<char>)
    requires
        forall|i: int| 0 <= i < s.len() ==> german(#[trigger] s[i]),
    ensures
        kept(s) == s,
{
    assert forall|i: int| 0 <= i < s.len() implies #[trigger] kept(s)[i] == s[i] by {
        lemma_kept_char(s[i]);
    }
    assert(kept(s) =~= s);
}

/// The text of a record with its number behind it.
pub open spec fn line_text(record: Seq<char>, n: nat) -> Seq<char> {
    record + pad_left(digits(n), 6, '0')
}

proof fn lemma_count(n: nat)
    ensures
        all_digits(pad_left(digits(n), 6, '0')),
        pad_left(digits(n), 6, '0').len() >= 6,
{
    lemma_digits(n);
    lemma_pad_digits(digits(n), 6);
}

proof fn lemma_pad_digits(s: Seq<char>, width: nat)
    requires
        all_digits(s),
    ensures
        all_digits(pad_left(s, width, '0')),
{
    let p = pad_left(s, width, '0');
    assert forall|i: int| 0 <= i < p.len() implies is_digit(#[trigger] p[i]) by {
        if s.len() < width {
            if i >= width - s.len() {
                assert(p[i] == s[i - (width - s.len())]);
            }
        } else {
            assert(p[i] == s[i]);
        }
    }
}

/// A record that holds no line feed becomes one line.
pub open spec fn unbroken(record: Seq<char>) -> bool {
    !record.contains('\n')
}

proof fn lemma_unbroken(record: Seq<char>, n: nat)
    requires
        unbroken(record),
    ensures
        !line_text(record, n).contains('\n'),
{
    let count = pad_left(digits(n), 6, '0');
    lemma_count(n);
    let all = line_text(record, n);
    assert forall|i: int| 0 <= i < all.len() implies all[i] != '\n' by {
        if i < record.len() {
            assert(record.contains(record[i]));
        } else {
            assert(is_digit(count[i - record.len()]));
        }
    }
}

pub open spec fn line_texts(records: Seq<Seq<char>>, n: nat) -> Seq<Seq<char>> {
    Seq::new(n, |k: int| kept(line_text(records[k], (k + 1) as nat)))
}

/// The lines of a written offer are its records with their numbers.
proof fn lemma_lines_of(records: Seq<Seq<char>>, n: nat)
    requires
        n <= records.len(),
        forall|k: int| 0 <= k < n ==> unbroken(#[trigger] records[k]),
    ensures
        lines(cp850_text(record_lines(records, n))) == line_texts(records, n),
        n == 0 ==> cp850_text(record_lines(records, n)).len() == 0,
        n > 0 ==> cp850_text(record_lines(records, n)).len() > 0 && cp850_text(
            record_lines(records, n),
        ).last() == '\n',
    decreases n,
{
    if n == 0 {
        assert(line_texts(records, 0) =~= Seq::<Seq<char>>::empty());
        assert(lines(cp850_text(record_lines(records, 0))) =~= Seq::<Seq<char>>::empty());
    } else {
        let m = (n - 1) as nat;
        lemma_lines_of(records, m);
        let front = cp850_text(record_lines(records, m));
        let t = line_text(records[n - 1], n);
        let tail = kept(t) + seq!['\r', '\n'];
        assert(cp850_text(record_lines(records, n)) =~= front + tail);
        assert(unbroken(records[n - 1]));
        lemma_unbroken(records[n - 1], n);
        lemma_kept(t);
        lemma_lines_append(front, tail);
        lemma_lines_single(kept(t));
        assert(line_texts(records, n) =~= line_texts(records, m) + seq![kept(t)]);
    }
}

proof fn lemma_trim_end_line(record: Seq<char>, n: nat)
    ensures
        trim_end(kept(line_text(record, n))) == kept(line_text(record, n)),
{
    lemma_count(n);
    let t = line_text(record, n);
    let count = pad_left(digits(n), 6, '0');
    assert(t.last() == count.last());
    assert(is_digit(count[count.len() - 1]));
    lemma_kept_char(t.last());
    assert(kept(t).last() == t.last());
}

pub proof fn lemma_join_front(p: Seq<Seq<char>>, sep: Seq<char>)
    requires
        p.len() > 1,
    ensures
        join(p, sep) == p[0] + sep + join(p.skip(1), sep),
    decreases p.len(),
{
    if p.len() == 2 {
        assert(p.drop_last() =~= seq![p[0]]);
        assert(p.skip(1) =~= seq![p[1]]);
        assert(join(p.drop_last(), sep) == p[0]);
    } else {
        lemma_join_front(p.drop_last(), sep);
        assert(p.drop_last().skip(1) =~= p.skip(1).drop_last());
        assert(p.skip(1).last() == p.last());
        assert(join(p, sep) =~= p[0] + sep + join(p.skip(1), sep));
    }
}

/// Joining what was split gives the text back.
pub proof fn law_join_undoes_split(s: Seq<char>, c: char)
    ensures
        join(split(s, c), seq![c]) == s,
    decreases s.len(),
{
    let n = position_of(s, c) as int;
    lemma_position_of_found(s, c);
    if n < s.len() {
        let rest = s.skip(n + 1);
        law_join_undoes_split(rest, c);
        let p = split(s, c);
        assert(p.skip(1) =~= split(rest, c));
        assert(split(rest, c).len() > 0);
        lemma_join_front(p, seq![c]);
        assert(s =~= s.take(n) + seq![c] + rest);
    }
}

proof fn lemma_trim_digits(s: Seq<char>)
    requires
        all_digits(s),
    ensures
        trim(s) == s,
{
    if s.len() > 0 {
        assert(is_digit(s[0]));
        assert(is_digit(s[s.len() - 1]));
    }
}

proof fn lemma_total_step(l: Seq<nat>, i: int)
    requires
        0 <= i < l.len(),
    ensures
        total(l.take(i + 1)) == total(l.take(i)) + l[i],
{
    assert(l.take(i + 1).drop_last() =~= l.take(i));
}

proof fn lemma_total_monotone(l: Seq<nat>, i: int, j: int)
    requires
        0 <= i <= j <= l.len(),
    ensures
        total(l.take(i)) <= total(l.take(j)),
    decreases j - i,
{
    if i < j {
        lemma_total_step(l, j - 1);
        lemma_total_monotone(l, i, j - 1);
    }
}

proof fn lemma_marker_segment(l: Seq<nat>, n: nat, i: int, j: int)
    requires
        n <= l.len(),
        0 <= i < n,
        total(l.take(i)) <= j < total(l.take(i + 1)),
    ensures
        j < markers(l, n).len(),
        markers(l, n).len() == total(l.take(n as int)),
        markers(l, n)[j] == marker(l.len(), i),
    decreases n,
{
    lemma_markers_len(l, (n - 1) as nat);
    lemma_markers_len(l, n);
    lemma_total_step(l, n - 1);
    if i < n - 1 {
        lemma_marker_segment(l, (n - 1) as nat, i, j);
    } else {
        assert(markers(l, n)[j] == times(marker(l.len(), n - 1), l[n - 1])[j - markers(
            l,
            (n - 1) as nat,
        ).len()]);
    }
}

proof fn lemma_markers_len(l: Seq<nat>, n: nat)
    requires
        n <= l.len(),
    ensures
        markers(l, n).len() == total(l.take(n as int)),
    decreases n,
{
    if n > 0 {
        lemma_markers_len(l, (n - 1) as nat);
        lemma_total_step(l, n - 1);
    } else {
        assert(l.take(0) =~= Seq::<nat>::empty());
    }
}

pub open spec fn part_sizes(p: Seq<Seq<char>>) -> Seq<nat> {
    Seq::new(p.len(), |i: int| p[i].len())
}

proof fn lemma_join_segment(p: Seq<Seq<char>>, i: int)
    requires
        0 <= i < p.len(),
    ensures
        join(p, seq![]).len() == total(part_sizes(p)),
        total(part_sizes(p).take(i + 1)) <= join(p, seq![]).len(),
        total(part_sizes(p).take(i + 1)) == total(part_sizes(p).take(i)) + p[i].len(),
        join(p, seq![]).subrange(
            total(part_sizes(p).take(i)) as int,
            total(part_sizes(p).take(i + 1)) as int,
        ) == p[i],
    decreases p.len(),
{
    let l = part_sizes(p);
    let q = p.drop_last();
    lemma_total_step(l, i);
    lemma_total_monotone(l, i + 1, l.len() as int);
    assert(l.take(l.len() as int) =~= l);
    lemma_join_len(p);
    if p.len() == 1 {
        assert(l.take(0) =~= Seq::<nat>::empty());
        assert(join(p, seq![]).subrange(0, p[0].len() as int) =~= p[0]);
    } else {
        lemma_join_len(q);
        assert(part_sizes(q) =~= l.drop_last());
        let all = join(p, seq![]);
        assert(all =~= join(q, seq![]) + p.last());
        if i < q.len() {
            lemma_join_segment(q, i);
            assert(part_sizes(q).take(i) =~= l.take(i));
            assert(part_sizes(q).take(i + 1) =~= l.take(i + 1));
            assert(all.subrange(total(l.take(i)) as int, total(l.take(i + 1)) as int) =~= join(
                q,
                seq![],
            ).subrange(total(l.take(i)) as int, total(l.take(i + 1)) as int));
        } else {
            assert(l.take(i) =~= l.drop_last());
            assert(l.take(i + 1) =~= l);
            assert(all.subrange(total(l.take(i)) as int, total(l) as int) =~= p.last());
        }
    }
}

proof fn lemma_join_len(p: Seq<Seq<char>>)
    ensures
        join(p, seq![]).len() == total(part_sizes(p)),
    decreases p.len(),
{
    if p.len() == 1 {
        assert(part_sizes(p).drop_last() =~= Seq::<nat>::empty());
        assert(total(part_sizes(p).drop_last()) == 0);
    } else if p.len() > 1 {
        lemma_join_len(p.drop_last());
        assert(part_sizes(p).drop_last() =~= part_sizes(p.drop_last()));
    }
}

/// An ordinal number whose parts are one to nine digits each, five at most: what a
/// D84 carries whole.
pub open spec fn carried(oz: Seq<char>) -> bool {
    &&& numeric(oz)
    &&& split(oz, '.').len() <= 5
    &&& total(lengths_of(oz)) <= 9
    &&& forall|i: int| 0 <= i < split(oz, '.').len() ==> (#[trigger] split(oz, '.')[i]).len() > 0
}

proof fn lemma_lengths(oz: Seq<char>)
    requires
        numeric(oz),
    ensures
        lengths_of(oz) == part_sizes(split(oz, '.')),
{
    let p = split(oz, '.');
    assert forall|i: int| 0 <= i < p.len() implies #[trigger] lengths_of(oz)[i] == p[i].len() by {
        assert(all_digits(p[i]));
        lemma_digits_ascii(p[i]);
        lemma_ascii_text(p[i]);
    }
    assert(lengths_of(oz) =~= part_sizes(p));
}

spec fn raw_of(oz: Seq<char>) -> Seq<u8> {
    encode_utf8(compact(oz))
}

spec fn mask_bytes(oz: Seq<char>) -> Seq<u8> {
    encode_utf8(mask_of(lengths_of(oz)))
}

spec fn offset(oz: Seq<char>, i: int) -> int {
    total(lengths_of(oz).take(i)) as int
}

proof fn lemma_carried_shape(oz: Seq<char>)
    requires
        carried(oz),
    ensures
        raw_of(oz).len() == 9,
        mask_bytes(oz).len() == 9,
        compact(oz).len() == 9,
        mask_of(lengths_of(oz)).len() == 9,
        forall|j: int| 0 <= j < 9 ==> #[trigger] raw_of(oz)[j] == compact(oz)[j] as u8,
        forall|j: int| 0 <= j < 9 ==> #[trigger] mask_bytes(oz)[j] == mask_of(lengths_of(oz))[j] as u8,
        lengths_of(oz).len() == split(oz, '.').len(),
        join(split(oz, '.'), seq![]).len() == total(lengths_of(oz)),
        markers(lengths_of(oz), lengths_of(oz).len()).len() == total(lengths_of(oz)),
        offset(oz, split(oz, '.').len() as int) == total(lengths_of(oz)),
{
    let p = split(oz, '.');
    let l = lengths_of(oz);
    lemma_lengths(oz);
    lemma_join_len(p);
    lemma_mask(l);
    lemma_markers_len(l, l.len());
    assert(l.take(p.len() as int) =~= l);
    lemma_compact_ascii(oz);
    lemma_ascii_text(compact(oz));
    lemma_ascii_text(mask_of(l));
}

proof fn lemma_parts_end(oz: Seq<char>)
    requires
        carried(oz),
    ensures
        ({
            let at = offset(oz, split(oz, '.').len() as int);
            oz_parts(raw_of(oz).skip(at), mask_bytes(oz).skip(at)) == Seq::<Seq<char>>::empty()
        }),
{
    lemma_carried_shape(oz);
    let at = offset(oz, split(oz, '.').len() as int);
    let raw = raw_of(oz).skip(at);
    let rest = mask_bytes(oz).skip(at);
    assert forall|j: int| 0 <= j < rest.len() implies #[trigger] rest[j] == 0x20 by {
        assert(rest[j] == mask_bytes(oz)[at + j]);
        assert(mask_of(lengths_of(oz))[at + j] == ' ');
    }
    if rest.len() > 0 {
        assert(rest[0] == 0x20);
        assert forall|j: int| 0 <= j < rest.len() implies #[trigger] rest[j] == rest[0] by {}
        lemma_run_len(rest, rest.len() as int);
        let none = raw.skip(rest.len() as int);
        assert(none =~= Seq::<u8>::empty());
        assert(oz_parts(none, rest.skip(rest.len() as int)) =~= Seq::<Seq<char>>::empty());
    }
}

proof fn lemma_part_run(oz: Seq<char>, i: int)
    requires
        carried(oz),
        0 <= i < split(oz, '.').len(),
    ensures
        offset(oz, i + 1) == offset(oz, i) + split(oz, '.')[i].len(),
        offset(oz, i + 1) <= 9,
        run_len(mask_bytes(oz).skip(offset(oz, i))) == split(oz, '.')[i].len(),
        mask_bytes(oz)[offset(oz, i)] != 0x20,
        mask_bytes(oz)[offset(oz, i)] != 0x30,
        mask_bytes(oz)[offset(oz, i)] != 0x49,
{
    lemma_carried_shape(oz);
    let p = split(oz, '.');
    let l = lengths_of(oz);
    let n = p.len() as int;
    lemma_lengths(oz);
    lemma_total_step(l, i);
    let at = offset(oz, i);
    let size = l[i] as int;
    let next = at + size;
    assert(p[i].len() > 0);
    assert(l.take(n) =~= l);
    lemma_total_monotone(l, i + 1, n);
    let rest = mask_bytes(oz).skip(at);
    let m = markers(l, l.len());
    let mark = marker(l.len(), i) as u8;
    assert forall|j: int| 0 <= j < size implies #[trigger] rest[j] == mark by {
        lemma_marker_segment(l, l.len(), i, at + j);
        assert(mask_of(l)[at + j] == m[at + j]);
        assert(rest[j] == mask_bytes(oz)[at + j]);
    }
    assert(rest[0] == mark);
    if size < rest.len() {
        assert(rest[size] == mask_bytes(oz)[next]);
        if i + 1 < n {
            lemma_total_step(l, i + 1);
            assert(p[i + 1].len() > 0);
            lemma_total_monotone(l, i + 2, n);
            lemma_marker_segment(l, l.len(), i + 1, next);
            assert(mask_of(l)[next] == m[next]);
            assert(marker(l.len(), i + 1) != marker(l.len(), i));
        } else {
            assert(mask_of(l)[next] == ' ');
        }
    }
    lemma_run_len(rest, size);
    assert(mask_bytes(oz)[at] == rest[0]);
}

proof fn lemma_part_text(oz: Seq<char>, i: int)
    requires
        carried(oz),
        0 <= i < split(oz, '.').len(),
    ensures
        trim(
            lossless(raw_of(oz).skip(offset(oz, i)).take(split(oz, '.')[i].len() as int)),
        ) == split(oz, '.')[i],
{
    lemma_carried_shape(oz);
    lemma_part_run(oz, i);
    let p = split(oz, '.');
    lemma_lengths(oz);
    lemma_join_segment(p, i);
    let at = offset(oz, i);
    let part = p[i];
    let size = part.len() as int;
    assert(all_digits(part));
    let flat = join(p, seq![]);
    let piece = raw_of(oz).skip(at).take(size);
    assert forall|j: int| 0 <= j < size implies #[trigger] piece[j] == part[j] as u8 && piece[j] < 0x80
        && piece[j] as char == part[j] by {
        assert(piece[j] == raw_of(oz)[at + j]);
        assert(compact(oz)[at + j] == flat[at + j]);
        assert(flat.subrange(at, at + size)[j] == part[j]);
        assert(is_digit(part[j]));
    }
    lemma_ascii_bytes(piece);
    assert(decode_utf8(piece) =~= part);
    lemma_trim_digits(part);
}

proof fn lemma_parts_read(oz: Seq<char>, i: int)
    requires
        carried(oz),
        0 <= i <= split(oz, '.').len(),
    ensures
        oz_parts(raw_of(oz).skip(offset(oz, i)), mask_bytes(oz).skip(offset(oz, i))) == split(
            oz,
            '.',
        ).skip(i),
    decreases split(oz, '.').len() - i,
{
    lemma_carried_shape(oz);
    let p = split(oz, '.');
    if i == p.len() {
        lemma_parts_end(oz);
        assert(p.skip(i) =~= Seq::<Seq<char>>::empty());
    } else {
        lemma_parts_read(oz, i + 1);
        lemma_part_run(oz, i);
        lemma_part_text(oz, i);
        let at = offset(oz, i);
        let size = p[i].len() as int;
        assert(size > 0);
        let raw = raw_of(oz).skip(at);
        let mask = mask_bytes(oz).skip(at);
        assert(raw.skip(size) =~= raw_of(oz).skip(at + size));
        assert(mask.skip(size) =~= mask_bytes(oz).skip(at + size));
        assert(mask[0] == mask_bytes(oz)[at]);
        assert(p.skip(i) =~= seq![p[i]] + p.skip(i + 1));
    }
}

/// A D84 carries an ordinal number unchanged.
pub proof fn law_oz_carried(oz: Seq<char>)
    requires
        carried(oz),
    ensures
        masked_oz(compact(oz), mask_of(lengths_of(oz))) == oz,
{
    lemma_parts_read(oz, 0);
    lemma_carried_shape(oz);
    let l = lengths_of(oz);
    assert(l.take(0) =~= Seq::<nat>::empty());
    let raw = raw_of(oz);
    let mask = mask_bytes(oz);
    assert(raw.skip(0) =~= raw.take(9));
    assert(mask.skip(0) =~= mask.take(9));
    assert(split(oz, '.').skip(0) =~= split(oz, '.'));
    reveal_strlit(".");
    assert("."@ =~= seq!['.']);
    law_join_undoes_split(oz, '.');
}

proof fn lemma_value_concat(a: Seq<char>, b: Seq<char>)
    ensures
        digits_value(a + b) == digits_value(a) * pow10(b.len()) + digits_value(b),
    decreases b.len(),
{
    if b.len() == 0 {
        assert(a + b =~= a);
        assert(pow10(0) == 1);
        assert(digits_value(a) * 1 == digits_value(a));
    } else {
        let c = b.drop_last();
        lemma_value_concat(a, c);
        assert(pow10(b.len()) == 10 * pow10(c.len()));
        assert((a + b).drop_last() =~= a + c);
        let x = digits_value(a);
        let y = pow10(c.len());
        assert(x * (10 * y) == 10 * (x * y)) by (nonlinear_arith);
    }
}

proof fn lemma_value_zeros(n: nat)
    ensures
        digits_value(times('0', n)) == 0,
    decreases n,
{
    if n > 0 {
        lemma_value_zeros((n - 1) as nat);
        assert(times('0', n).drop_last() =~= times('0', (n - 1) as nat));
    }
}

proof fn lemma_value_padded(s: Seq<char>, width: nat)
    ensures
        digits_value(pad_left(s, width, '0')) == digits_value(s),
{
    if s.len() < width {
        let z = times('0', (width - s.len()) as nat);
        lemma_value_zeros((width - s.len()) as nat);
        lemma_value_concat(z, s);
        assert(pad_left(s, width, '0') =~= z + s);
    }
}

proof fn lemma_value_bound(s: Seq<char>)
    requires
        all_digits(s),
    ensures
        digits_value(s) < pow10(s.len()),
    decreases s.len(),
{
    if s.len() > 0 {
        assert forall|i: int| 0 <= i < s.drop_last().len() implies is_digit(#[trigger] s.drop_last()[i]) by {
            assert(is_digit(s[i]));
        }
        lemma_value_bound(s.drop_last());
        assert(is_digit(s[s.len() - 1]));
    }
}

/// The front of a row of digits is its value without the last digits.
proof fn lemma_value_take(s: Seq<char>, k: int)
    requires
        all_digits(s),
        0 <= k <= s.len(),
    ensures
        digits_value(s.take(k)) == digits_value(s) / pow10((s.len() - k) as nat),
{
    let a = s.take(k);
    let b = s.skip(k);
    assert(a + b =~= s);
    lemma_value_concat(a, b);
    assert forall|i: int| 0 <= i < b.len() implies is_digit(#[trigger] b[i]) by {
        assert(is_digit(s[k + i]));
    }
    lemma_value_bound(b);
    lemma_pow10_positive(b.len());
    let x = digits_value(a);
    let y = digits_value(b);
    let d = pow10(b.len());
    assert((x * d + y) / d == x) by (nonlinear_arith)
        requires
            0 <= y < d,
            0 <= x,
    ;
}

proof fn lemma_fraction_value(d: Dec, k: nat)
    ensures
        ({
            let f = magnitude(d.mantissa) % pow10(d.scale);
            digits_value(d.fixed_fraction(k)) == if d.scale >= k {
                f / pow10((d.scale - k) as nat)
            } else {
                f * pow10((k - d.scale) as nat)
            }
        }),
{
    let f = magnitude(d.mantissa) % pow10(d.scale);
    lemma_pow10_positive(d.scale);
    let x = d.fraction_digits();
    crate::gaeb90_export::lemma_fraction_digits(d);
    if d.scale == 0 {
        assert(pow10(0) == 1);
        assert(f == 0);
        lemma_value_zeros(k);
        assert(d.fixed_fraction(k) =~= times('0', k));
        assert(0 * pow10(k) == 0);
        if k == 0 {
            assert(f / pow10(0) == 0);
        }
    } else {
        lemma_digits_len(f, d.scale);
        lemma_digits(f);
        lemma_value_padded(digits(f), d.scale);
        assert(x.len() == d.scale);
        if d.scale >= k {
            assert(d.fixed_fraction(k) =~= x.take(k as int));
            lemma_value_take(x, k as int);
        } else {
            let z = times('0', (k - d.scale) as nat);
            assert(d.fixed_fraction(k) =~= x + z);
            lemma_value_zeros((k - d.scale) as nat);
            lemma_value_concat(x, z);
        }
    }
}

/// The digits of a price have the value of the price cut off behind its places.
pub proof fn lemma_price_value(d: Dec, k: nat)
    ensures
        digits_value(price_digits(d, k)) == magnitude(d.cut(k).mantissa),
{
    let m = magnitude(d.mantissa);
    let p = pow10(d.scale);
    let w = m / p;
    let f = m % p;
    lemma_pow10_positive(d.scale);
    lemma_pow10_positive(k);
    let e = d.abs();
    lemma_digits(w);
    lemma_fraction_value(e, k);
    lemma_value_concat(e.whole_digits(), e.fixed_fraction(k));
    assert(m == w * p + f) by {
        vstd::arithmetic::div_mod::lemma_fundamental_div_mod(m as int, p as int);
        assert(p * w == w * p) by (nonlinear_arith);
    }
    let t = pow10(k);
    if d.scale >= k {
        let q = pow10((d.scale - k) as nat);
        lemma_pow10_add(k, (d.scale - k) as nat);
        assert(p == t * q);
        assert(m * t / p == m / q) by (nonlinear_arith)
            requires
                p == t * q,
                t > 0,
                q > 0,
                m >= 0,
        ;
        assert(m / q == w * t + f / q) by (nonlinear_arith)
            requires
                m == w * p + f,
                p == t * q,
                q > 0,
                t > 0,
                w >= 0,
                f >= 0,
        ;
    } else {
        let q = pow10((k - d.scale) as nat);
        lemma_pow10_add(d.scale, (k - d.scale) as nat);
        assert(t == p * q);
        assert(m * t / p == m * q) by (nonlinear_arith)
            requires
                t == p * q,
                p > 0,
                q > 0,
                m >= 0,
        ;
        assert(m * q == w * t + f * q) by (nonlinear_arith)
            requires
                m == w * p + f,
                t == p * q,
        ;
    }
}

/// A D84 carries a price that is not negative, cut off behind its decimal places.
pub proof fn law_price_carried(d: Dec, scale: nat, width: nat)
    requires
        d.mantissa >= 0,
        0 < width <= 12,
        price_field(d, scale, width) is Ok,
    ensures
        implied_decimal(price_field(d, scale, width)->Ok_0, scale) == Some(d.cut(scale)),
{
    let x = price_digits(d, scale);
    let s = pad_left(x, width, '0');
    lemma_price_digits(d, scale);
    lemma_pad_digits(x, width);
    lemma_trim_digits(s);
    lemma_value_padded(x, width);
    lemma_price_value(d, scale);
    lemma_pow10_positive(d.scale);
    assert(d.cut(scale).mantissa >= 0) by {
        let top = magnitude(d.mantissa) * pow10(scale);
        let low = pow10(d.scale);
        assert(top / low >= 0) by (nonlinear_arith)
            requires
                top >= 0,
                low > 0,
        ;
    }
    lemma_value_bound(s);
    assert(s.len() == width);
    lemma_pow10_add(width, (12 - width) as nat);
    assert(pow10(12) == 1_000_000_000_000) by {
        reveal_with_fuel(pow10, 13);
    }
    assert(pow10(width) <= pow10(12)) by (nonlinear_arith)
        requires
            pow10(12) == pow10(width) * pow10((12 - width) as nat),
            pow10((12 - width) as nat) > 0,
    ;
}

/// The characters of a value stay in a record where no later value covers them.
proof fn lemma_filled_at(places: Seq<Place>, k: int, i: int)
    requires
        0 <= k < places.len(),
        0 <= i < places[k].value.len(),
        places[k].column + i < 74,
        forall|q: int|
            k < q < places.len() ==> !((#[trigger] places[q]).column <= places[k].column + i
                < places[q].column + places[q].value.len()),
    ensures
        filled(places)[places[k].column + i] == places[k].value[i],
    decreases places.len(),
{
    let front = places.drop_last();
    lemma_filled_len(front);
    if k < places.len() - 1 {
        assert forall|q: int| k < q < front.len() implies !((#[trigger] front[q]).column
            <= front[k].column + i < front[q].column + front[q].value.len()) by {
            assert(front[q] == places[q]);
        }
        lemma_filled_at(front, k, i);
        assert(places[places.len() - 1] == places.last());
    }
}

proof fn lemma_ascii_line(record: Seq<char>, n: nat)
    requires
        is_ascii_chars(record),
    ensures
        ({
            let line = kept(line_text(record, n));
            &&& line.len() >= record.len() + 6
            &&& forall|i: int| 0 <= i < record.len() ==> #[trigger] line[i] == record[i]
        }),
{
    lemma_count(n);
    let count = pad_left(digits(n), 6, '0');
    lemma_digits_ascii(count);
    let line = line_text(record, n);
    assert forall|i: int| 0 <= i < line.len() implies '\0' <= #[trigger] line[i] <= '\u{7f}' by {
        if i < record.len() {
            assert(line[i] == record[i]);
        } else {
            assert(line[i] == count[i - record.len()]);
        }
    }
    lemma_kept(line);
}

/// A value of an ASCII record is read back from its columns.
proof fn lemma_column_text(places: Seq<Place>, k: int, n: nat)
    requires
        0 <= k < places.len(),
        forall|q: int| 0 <= q < places.len() ==> is_ascii_chars((#[trigger] places[q]).value),
        places[k].value.len() > 0,
        places[k].column + places[k].value.len() <= 74,
        forall|q: int|
            k < q < places.len() ==> places[k].column + places[k].value.len() <= (
            #[trigger] places[q]).column,
    ensures
        columns(
            kept(line_text(filled(places), n)),
            places[k].column as int,
            (places[k].column + places[k].value.len()) as int,
        ) == places[k].value,
{
    let record = filled(places);
    lemma_filled_len(places);
    lemma_filled_ascii(places);
    lemma_ascii_line(record, n);
    let value = places[k].value;
    let at = places[k].column as int;
    let line = kept(line_text(record, n));
    assert forall|i: int| 0 <= i < value.len() implies #[trigger] line[at + i] == value[i] by {
        assert forall|q: int| k < q < places.len() implies !((#[trigger] places[q]).column
            <= places[k].column + i < places[q].column + places[q].value.len()) by {}
        lemma_filled_at(places, k, i);
        assert(line[at + i] == record[at + i]);
    }
    let cols = columns(line, at, at + value.len());
    assert(cols == line.subrange(at, at + value.len()));
    assert forall|i: int| 0 <= i < value.len() implies cols[i] == value[i] by {
        assert(cols[i] == line[at + i]);
    }
    assert(cols =~= value);
}

/// A record without line feeds in its values has none at all.
proof fn lemma_filled_unbroken(places: Seq<Place>)
    requires
        forall|q: int| 0 <= q < places.len() ==> !(#[trigger] places[q]).value.contains('\n'),
    ensures
        !filled(places).contains('\n'),
    decreases places.len(),
{
    if places.len() > 0 {
        let front = places.drop_last();
        assert forall|q: int| 0 <= q < front.len() implies !(#[trigger] front[q]).value.contains('\n') by {
            assert(front[q] == places[q]);
        }
        lemma_filled_unbroken(front);
        let last = places[places.len() - 1];
        let value = last.value;
        let r = filled(places);
        assert forall|i: int| 0 <= i < r.len() implies r[i] != '\n' by {
            if last.column <= i < last.column + value.len() {
                assert(value.contains(value[i - last.column]));
            } else {
                assert(filled(front).contains(filled(front)[i]));
            }
        }
    }
}

proof fn lemma_cut_unbroken(value: Seq<char>, length: nat)
    requires
        !value.contains('\n'),
    ensures
        !cut(value, length).contains('\n'),
{
    let c = cut(value, length);
    assert forall|i: int| 0 <= i < c.len() implies c[i] != '\n' by {
        assert(value.contains(value[i]));
    }
}

proof fn lemma_digits_unbroken(s: Seq<char>)
    requires
        all_digits(s),
    ensures
        !s.contains('\n'),
{
    if s.contains('\n') {
        let i = choose|i: int| 0 <= i < s.len() && s[i] == '\n';
        assert(is_digit(s[i]));
    }
}

/// What an offer is asked to carry: ordinal numbers of up to five parts, prices that
/// are not negative, and one line each for project, bill and currency.
pub open spec fn carriable(document: DocumentView) -> bool {
    let items = items_of(document.rows);
    &&& !document.project.contains('\n')
    &&& !document.boq.contains('\n')
    &&& !document.currency.contains('\n')
    &&& fully_priced(items)
    &&& forall|i: int|
        0 <= i < items.len() ==> {
            &&& carried((#[trigger] items[i]).oz)
            &&& items[i].unit_price->0.mantissa >= 0
            &&& items[i].total_price->0.mantissa >= 0
        }
}

/// What is read back of an item.
pub open spec fn offered(item: ItemView) -> RowView {
    RowView::Item(
        ItemView {
            oz: item.oz,
            unit_price: Some(item.unit_price->0.cut(3)),
            total_price: Some(item.total_price->0.cut(2)),
            ..empty_item()
        },
    )
}

pub open spec fn offered_rows(items: Seq<ItemView>, n: nat) -> Seq<RowView> {
    Seq::new(n, |i: int| offered(items[i]))
}

/// All records of an offer.
pub open spec fn offer_records(document: DocumentView, moment: MomentView) -> Seq<Seq<char>> {
    let items = items_of(document.rows);
    head_records(document, moment.short_date(), shared_lengths(items)->Ok_0) + price_records(
        items,
        items.len(),
    )->Ok_0 + seq![end_record(items.len())]
}

proof fn lemma_head_unbroken(document: DocumentView, moment: MomentView, lengths: Seq<nat>)
    requires
        moment.valid(),
        carriable(document),
        lengths.len() <= 6,
        total(lengths) <= 9,
    ensures
        unbroken(header_record(lengths)),
        unbroken(project_record(document, moment.short_date())),
        unbroken(boq_record(document)),
        unbroken(currency_record(document)),
{
    lemma_short_date(moment);
    let date = moment.short_date();
    reveal_strlit("00");
    reveal_strlit("84");
    reveal_strlit("90");
    reveal_strlit("01");
    reveal_strlit("X");
    reveal_strlit("02");
    reveal_strlit("08");
    reveal_strlit("EUR");
    reveal_strlit("GAEB-Angebot");
    lemma_header_record_ascii(lengths);
    lemma_mask(lengths);
    assert(!mask_of(lengths).contains('\n')) by {
        lemma_mask_unbroken(lengths);
    }
    lemma_filled_unbroken(
        seq![
            Place { column: 0, value: "00"@ },
            Place { column: 10, value: "84"@ },
            Place { column: 62, value: mask_of(lengths) },
            Place { column: 71, value: "90"@ },
        ],
    );
    lemma_cut_unbroken(or_else(document.project, "GAEB-Angebot"@), 40);
    lemma_filled_unbroken(
        seq![
            Place { column: 0, value: "01"@ },
            Place { column: 2, value: cut(or_else(document.project, "GAEB-Angebot"@), 40) },
            Place { column: 42, value: date },
            Place { column: 68, value: "X"@ },
        ],
    );
    lemma_cut_unbroken(document.boq, 70);
    lemma_filled_unbroken(
        seq![Place { column: 0, value: "02"@ }, Place { column: 2, value: cut(document.boq, 70) }],
    );
    let currency = or_else(document.currency, "EUR"@);
    lemma_filled_unbroken(
        seq![
            Place { column: 0, value: "08"@ },
            Place { column: 2, value: currency },
            Place { column: 6, value: currency },
        ],
    );
}

proof fn lemma_mask_unbroken(lengths: Seq<nat>)
    requires
        lengths.len() <= 6,
    ensures
        !mask_of(lengths).contains('\n'),
{
    lemma_markers_unbroken(lengths, lengths.len());
    let m = markers(lengths, lengths.len());
    let s = mask_of(lengths);
    assert forall|i: int| 0 <= i < s.len() implies s[i] != '\n' by {
        if i < m.len() {
            assert(m.contains(m[i]));
        }
    }
}

proof fn lemma_markers_unbroken(lengths: Seq<nat>, n: nat)
    requires
        n <= lengths.len() <= 6,
    ensures
        !markers(lengths, n).contains('\n'),
    decreases n,
{
    if n > 0 {
        lemma_markers_unbroken(lengths, (n - 1) as nat);
        let front = markers(lengths, (n - 1) as nat);
        let s = markers(lengths, n);
        assert forall|i: int| 0 <= i < s.len() implies s[i] != '\n' by {
            if i < front.len() {
                assert(front.contains(front[i]));
            }
        }
    }
}

/// The places of the values in a price record.
spec fn price_places(oz: Seq<char>, ep: Seq<char>, gb: Seq<char>) -> Seq<Place> {
    seq![
        Place { column: 0, value: "23"@ },
        Place { column: 2, value: compact(oz) },
        Place { column: 13, value: ep },
        Place { column: 25, value: gb },
    ]
}

proof fn lemma_price_line(oz: Seq<char>, ep: Seq<char>, gb: Seq<char>, n: nat)
    requires
        carried(oz),
        is_ascii_chars(ep),
        is_ascii_chars(gb),
        ep.len() == 11,
        gb.len() == 12,
    ensures
        ({
            let line = kept(line_text(price_record(oz, ep, gb), n));
            &&& columns(line, 0, 2) == "23"@
            &&& columns(line, 2, 11) == compact(oz)
            &&& columns(line, 13, 24) == ep
            &&& columns(line, 25, 37) == gb
        }),
{
    lemma_carried_shape(oz);
    lemma_compact_ascii(oz);
    reveal_strlit("23");
    let places = price_places(oz, ep, gb);
    assert forall|q: int| 0 <= q < places.len() implies is_ascii_chars((#[trigger] places[q]).value) by {}
    lemma_column_text(places, 0, n);
    lemma_column_text(places, 1, n);
    lemma_column_text(places, 2, n);
    lemma_column_text(places, 3, n);
}

proof fn lemma_header_line(lengths: Seq<nat>, n: nat)
    requires
        lengths.len() <= 6,
        total(lengths) <= 9,
    ensures
        ({
            let line = kept(line_text(header_record(lengths), n));
            &&& line.len() >= 80
            &&& columns(line, 0, 2) == "00"@
            &&& columns(line, 10, 12) == "84"@
            &&& columns(line, 62, 71) == mask_of(lengths)
        }),
{
    lemma_mask(lengths);
    reveal_strlit("00");
    reveal_strlit("84");
    reveal_strlit("90");
    let places = seq![
        Place { column: 0, value: "00"@ },
        Place { column: 10, value: "84"@ },
        Place { column: 62, value: mask_of(lengths) },
        Place { column: 71, value: "90"@ },
    ];
    assert forall|q: int| 0 <= q < places.len() implies is_ascii_chars((#[trigger] places[q]).value) by {}
    lemma_column_text(places, 0, n);
    lemma_column_text(places, 1, n);
    lemma_column_text(places, 2, n);
    lemma_filled_len(places);
    lemma_header_record_ascii(lengths);
    lemma_ascii_line(header_record(lengths), n);
}

proof fn lemma_end_line(count: nat, n: nat)
    ensures
        columns(kept(line_text(end_record(count), n)), 0, 2) == "99"@,
{
    lemma_end_record_ascii(count);
    reveal_strlit("99");
    let places = seq![
        Place { column: 0, value: "99"@ },
        Place { column: 2, value: pad_left(digits(count), 7, '0') },
    ];
    assert("99"@ =~= seq!['9', '9']);
    lemma_kind_of(places, '9', '9', n);
}

/// A record whose first value is two ASCII characters and whose other values stand
/// further back is known by these two.
proof fn lemma_kind_of(places: Seq<Place>, a: char, b: char, n: nat)
    requires
        places.len() > 0,
        places[0].column == 0,
        places[0].value == seq![a, b],
        '\0' <= a <= '\u{7f}',
        '\0' <= b <= '\u{7f}',
        forall|q: int| 0 < q < places.len() ==> (#[trigger] places[q]).column >= 2,
    ensures
        columns(kept(line_text(filled(places), n)), 0, 2) == seq![a, b],
{
    lemma_filled_len(places);
    let v = places[0].value;
    lemma_filled_at(places, 0, 0);
    lemma_filled_at(places, 0, 1);
    let line = line_text(filled(places), n);
    assert(line[0] == v[0] && line[1] == v[1]);
    lemma_kept(line);
    lemma_kept_char(line[0]);
    lemma_kept_char(line[1]);
    assert(columns(kept(line), 0, 2) =~= seq![a, b]);
}

/// The three records behind the header leave the rows alone.
proof fn lemma_head_kinds(document: DocumentView, moment: MomentView)
    requires
        moment.valid(),
        carriable(document),
    ensures
        columns(kept(line_text(project_record(document, moment.short_date()), 2)), 0, 2) == "01"@,
        columns(kept(line_text(boq_record(document), 3)), 0, 2) == "02"@,
        columns(kept(line_text(currency_record(document), 4)), 0, 2) == "08"@,
{
    lemma_short_date(moment);
    let date = moment.short_date();
    reveal_strlit("01");
    reveal_strlit("02");
    reveal_strlit("08");
    assert("01"@ =~= seq!['0', '1']);
    assert("02"@ =~= seq!['0', '2']);
    assert("08"@ =~= seq!['0', '8']);
    lemma_kind_of(
        seq![
            Place { column: 0, value: "01"@ },
            Place { column: 2, value: cut(or_else(document.project, "GAEB-Angebot"@), 40) },
            Place { column: 42, value: date },
            Place { column: 68, value: "X"@ },
        ],
        '0',
        '1',
        2,
    );
    lemma_kind_of(
        seq![Place { column: 0, value: "02"@ }, Place { column: 2, value: cut(document.boq, 70) }],
        '0',
        '2',
        3,
    );
    let currency = or_else(document.currency, "EUR"@);
    lemma_kind_of(
        seq![
            Place { column: 0, value: "08"@ },
            Place { column: 2, value: currency },
            Place { column: 6, value: currency },
        ],
        '0',
        '8',
        4,
    );
}

/// What one price record does to the state of a reader.
proof fn lemma_price_step(state: ReadingView, item: ItemView, ep: Seq<char>, gb: Seq<char>, n: nat)
    requires
        carried(item.oz),
        item.unit_price->0.mantissa >= 0,
        item.total_price->0.mantissa >= 0,
        price_field(item.unit_price->0, 3, 11) == Ok::<Seq<char>, Seq<char>>(ep),
        price_field(item.total_price->0, 2, 12) == Ok::<Seq<char>, Seq<char>>(gb),
    ensures
        ({
            let line = kept(line_text(price_record(item.oz, ep, gb), n));
            state.record(line, "84"@, mask_of(lengths_of(item.oz))) == ReadingView {
                item: Some(offered(item)->Item_0),
                ..state.closed()
            }
        }),
{
    lemma_price_field_ascii(item.unit_price->0, 3, 11);
    lemma_price_field_ascii(item.total_price->0, 2, 12);
    lemma_price_line(item.oz, ep, gb, n);
    law_oz_carried(item.oz);
    law_price_carried(item.unit_price->0, 3, 11);
    law_price_carried(item.total_price->0, 2, 12);
    reveal(ReadingView::record);
    reveal_strlit("01");
    reveal_strlit("02");
    reveal_strlit("08");
    reveal_strlit("11");
    reveal_strlit("12");
    reveal_strlit("21");
    reveal_strlit("23");
    assert("23"@[0] == '2' && "23"@[1] == '3');
    assert("21"@[1] == '1');
}

proof fn lemma_records_prefix(items: Seq<ItemView>, i: nat, n: nat)
    requires
        i < n <= items.len(),
        price_records(items, n) is Ok,
    ensures
        price_records(items, n)->Ok_0.len() == n,
        price_field(items[i as int].unit_price->0, 3, 11) is Ok,
        price_field(items[i as int].total_price->0, 2, 12) is Ok,
        price_records(items, n)->Ok_0[i as int] == price_record(
            items[i as int].oz,
            price_field(items[i as int].unit_price->0, 3, 11)->Ok_0,
            price_field(items[i as int].total_price->0, 2, 12)->Ok_0,
        ),
    decreases n,
{
    if n > i + 1 {
        lemma_records_prefix(items, i, (n - 1) as nat);
    } else if n > 1 {
        lemma_records_prefix(items, 0, (n - 1) as nat);
    } else {
        assert(price_records(items, 0)->Ok_0.len() == 0);
    }
}

proof fn lemma_price_unbroken(item: ItemView)
    requires
        carried(item.oz),
        item.unit_price->0.mantissa >= 0,
        item.total_price->0.mantissa >= 0,
        price_field(item.unit_price->0, 3, 11) is Ok,
        price_field(item.total_price->0, 2, 12) is Ok,
    ensures
        unbroken(
            price_record(
                item.oz,
                price_field(item.unit_price->0, 3, 11)->Ok_0,
                price_field(item.total_price->0, 2, 12)->Ok_0,
            ),
        ),
{
    let ep = price_field(item.unit_price->0, 3, 11)->Ok_0;
    let gb = price_field(item.total_price->0, 2, 12)->Ok_0;
    lemma_price_field_ascii(item.unit_price->0, 3, 11);
    lemma_price_field_ascii(item.total_price->0, 2, 12);
    lemma_price_record_ascii(item.oz, ep, gb);
    lemma_price_digits(item.unit_price->0, 3);
    lemma_price_digits(item.total_price->0, 2);
    lemma_pad_digits(price_digits(item.unit_price->0, 3), 11);
    lemma_pad_digits(price_digits(item.total_price->0, 2), 12);
    lemma_digits_unbroken(ep);
    lemma_digits_unbroken(gb);
    crate::gaeb90_export::lemma_join_digits(split(item.oz, '.'));
    let flat = join(split(item.oz, '.'), seq![]);
    assert(!compact(item.oz).contains('\n')) by {
        lemma_digits_unbroken(flat);
        let c = compact(item.oz);
        assert forall|j: int| 0 <= j < c.len() implies c[j] != '\n' by {
            if j < flat.len() {
                assert(flat.contains(flat[j]));
            }
        }
    }
    reveal_strlit("23");
    lemma_filled_unbroken(price_places(item.oz, ep, gb));
}

proof fn lemma_offer_unbroken(document: DocumentView, moment: MomentView, k: int)
    requires
        moment.valid(),
        carriable(document),
        d84(document, moment) is Ok,
        0 <= k < offer_records(document, moment).len(),
    ensures
        unbroken(offer_records(document, moment)[k]),
{
    let items = items_of(document.rows);
    let lengths = shared_lengths(items)->Ok_0;
    let prices = price_records(items, items.len())->Ok_0;
    lemma_head_unbroken(document, moment, lengths);
    lemma_records_prefix(items, 0, items.len());
    if 4 <= k < 4 + items.len() {
        let i = k - 4;
        lemma_records_prefix(items, i as nat, items.len());
        assert(carried(items[i].oz));
        lemma_price_unbroken(items[i]);
        assert(offer_records(document, moment)[k] == prices[i]);
    } else if k == 4 + items.len() {
        lemma_end_record_ascii(items.len());
        lemma_digits(items.len());
        lemma_pad_digits(digits(items.len()), 7);
        lemma_digits_unbroken(pad_left(digits(items.len()), 7, '0'));
        reveal_strlit("99");
        lemma_filled_unbroken(
            seq![
                Place { column: 0, value: "99"@ },
                Place { column: 2, value: pad_left(digits(items.len()), 7, '0') },
            ],
        );
        assert(offer_records(document, moment)[k] == end_record(items.len()));
    }
}

/// Records on project, bill and currency leave rows, heading and item alone.
proof fn lemma_head_step(state: ReadingView, line: Seq<char>, mask: Seq<char>)
    requires
        columns(line, 0, 2) == "01"@ || columns(line, 0, 2) == "02"@ || columns(line, 0, 2) == "08"@,
    ensures
        ({
            let next = state.record(line, "84"@, mask);
            &&& next.document.rows == state.document.rows
            &&& next.category == state.category
            &&& next.item == state.item
        }),
{
    reveal(ReadingView::record);
    reveal_strlit("01");
    reveal_strlit("02");
    reveal_strlit("08");
    assert("02"@[1] != "01"@[1]);
    assert("08"@[1] != "01"@[1]);
    assert("08"@[1] != "02"@[1]);
}

/// The record at the end closes the open item.
proof fn lemma_end_step(state: ReadingView, line: Seq<char>, mask: Seq<char>)
    requires
        columns(line, 0, 2) == "99"@,
    ensures
        state.record(line, "84"@, mask) == state.closed(),
{
    reveal(ReadingView::record);
    reveal_strlit("99");
    reveal_strlit("01");
    reveal_strlit("02");
    reveal_strlit("08");
    reveal_strlit("11");
    reveal_strlit("12");
    reveal_strlit("21");
    reveal_strlit("23");
    reveal_strlit("25");
    reveal_strlit("26");
    assert("99"@[0] == '9');
}

/// What a reader has seen after the header, the three records behind it and `i` prices.
proof fn lemma_read_prices(
    document: DocumentView,
    moment: MomentView,
    source: Seq<char>,
    i: nat,
)
    requires
        moment.valid(),
        carriable(document),
        d84(document, moment) is Ok,
        i <= items_of(document.rows).len(),
    ensures
        ({
            let items = items_of(document.rows);
            let all = line_texts(
                offer_records(document, moment),
                offer_records(document, moment).len(),
            );
            let mask = mask_of(shared_lengths(items)->Ok_0);
            let state = read_until(all, 4 + i, source, "84"@, mask);
            &&& state.category is None
            &&& i == 0 ==> state.item is None && state.document.rows == Seq::<RowView>::empty()
            &&& i > 0 ==> state.item == Some(offered(items[i - 1])->Item_0) && state.document.rows
                == offered_rows(items, (i - 1) as nat)
        }),
    decreases i,
{
    let items = items_of(document.rows);
    let records = offer_records(document, moment);
    let all = line_texts(records, records.len());
    let lengths = shared_lengths(items)->Ok_0;
    let mask = mask_of(lengths);
    lemma_records_prefix(items, 0, items.len());
    if i == 0 {
        lemma_head_kinds(document, moment);
        assert(all[1] == kept(line_text(records[1], 2)));
        assert(all[2] == kept(line_text(records[2], 3)));
        assert(all[3] == kept(line_text(records[3], 4)));
        let s1 = read_until(all, 1, source, "84"@, mask);
        let s2 = read_until(all, 2, source, "84"@, mask);
        let s3 = read_until(all, 3, source, "84"@, mask);
        lemma_head_step(s1, all[1], mask);
        lemma_head_step(s2, all[2], mask);
        lemma_head_step(s3, all[3], mask);
        assert(read_until(all, 4, source, "84"@, mask) == s3.record(all[3], "84"@, mask));
    } else {
        lemma_read_prices(document, moment, source, (i - 1) as nat);
        let state = read_until(all, (3 + i) as nat, source, "84"@, mask);
        let item = items[i - 1];
        lemma_records_prefix(items, (i - 1) as nat, items.len());
        assert(carried(item.oz));
        let ep = price_field(item.unit_price->0, 3, 11)->Ok_0;
        let gb = price_field(item.total_price->0, 2, 12)->Ok_0;
        assert(lengths_of(item.oz) == lengths);
        assert(records[3 + i as int] == price_record(item.oz, ep, gb));
        lemma_price_step(state, item, ep, gb, 4 + i);
        assert(all[3 + i as int] == kept(line_text(records[3 + i as int], 4 + i)));
        if i > 1 {
            assert(trim(Seq::<char>::empty()) =~= Seq::<char>::empty());
            assert(state.closed().document.rows =~= offered_rows(items, (i - 1) as nat));
        } else {
            assert(state.closed().document.rows =~= offered_rows(items, 0));
        }
    }
}

/// Where no value stands, a record is blank.
proof fn lemma_filled_blank(places: Seq<Place>, p: int)
    requires
        0 <= p < 74,
        forall|q: int|
            0 <= q < places.len() ==> !((#[trigger] places[q]).column <= p < places[q].column
                + places[q].value.len()),
    ensures
        filled(places)[p] == ' ',
    decreases places.len(),
{
    if places.len() > 0 {
        let front = places.drop_last();
        lemma_filled_len(front);
        assert forall|q: int| 0 <= q < front.len() implies !((#[trigger] front[q]).column <= p
            < front[q].column + front[q].value.len()) by {
            assert(front[q] == places[q]);
        }
        lemma_filled_blank(front, p);
        assert(places[places.len() - 1] == places.last());
    }
}

/// Blanks behind a text do not change what is left of it without white space.
proof fn lemma_trim_padded(s: Seq<char>, n: nat)
    ensures
        trim(s + times(' ', n)) == trim(s),
    decreases n,
{
    if n == 0 {
        assert(s + times(' ', 0) =~= s);
    } else {
        let front = s + times(' ', (n - 1) as nat);
        let all = s + times(' ', n);
        assert(all =~= front.push(' '));
        lemma_trim_pushed(front);
        lemma_trim_padded(s, (n - 1) as nat);
    }
}

proof fn lemma_trim_pushed(s: Seq<char>)
    ensures
        trim(s.push(' ')) == trim(s),
    decreases s.len(),
{
    let all = s.push(' ');
    if s.len() == 0 {
        assert(all.skip(1) =~= s);
        assert(trim_start(all) == trim_start(all.skip(1)));
    } else if is_space(s[0]) {
        assert(all.skip(1) =~= s.skip(1).push(' '));
        lemma_trim_pushed(s.skip(1));
    } else {
        assert(all.drop_last() =~= s);
    }
}

/// What the columns of a value are read as, where nothing else stands in them.
proof fn lemma_field_text(places: Seq<Place>, k: int, width: nat, n: nat)
    requires
        0 <= k < places.len(),
        0 < width,
        places[k].column + width <= 74,
        forall|q: int|
            0 <= q < k ==> (#[trigger] places[q]).column + places[q].value.len()
                <= places[k].column,
        forall|q: int|
            k < q < places.len() ==> places[k].column + width <= (#[trigger] places[q]).column,
    ensures
        trim(
            columns(
                kept(line_text(filled(places), n)),
                places[k].column as int,
                (places[k].column + width) as int,
            ),
        ) == trim(kept(cut(places[k].value, width))),
{
    lemma_filled_len(places);
    lemma_count(n);
    let record = filled(places);
    let line = line_text(record, n);
    let value = places[k].value;
    let at = places[k].column as int;
    let text = cut(value, width);
    lemma_kept(line);
    lemma_kept(text);
    let blanks = times(' ', (width - text.len()) as nat);
    let cols = columns(kept(line), at, (at + width) as int);
    assert(cols == kept(line).subrange(at, at + width));
    assert forall|i: int| 0 <= i < width implies cols[i] == (kept(text) + blanks)[i] by {
        assert(cols[i] == kept(line)[at + i]);
        assert(kept(line)[at + i] == cp850_char(cp850_byte(line[at + i])));
        assert(line[at + i] == record[at + i]);
        if i < text.len() {
            lemma_filled_at(places, k, i);
            assert(kept(text)[i] == cp850_char(cp850_byte(text[i])));
        } else {
            lemma_filled_blank(places, at + i);
            lemma_kept_char(' ');
        }
    }
    assert(cols =~= kept(text) + blanks);
    lemma_trim_padded(kept(text), blanks.len());
}

/// The project that is read back: what fits into its field.
pub open spec fn offered_project(document: DocumentView) -> Seq<char> {
    trim(kept(cut(or_else(document.project, "GAEB-Angebot"@), 40)))
}

/// The bill that is read back: what fits into its field.
pub open spec fn offered_boq(document: DocumentView) -> Seq<char> {
    trim(kept(cut(document.boq, 70)))
}

/// The currency that is read back: its first three characters, or euros where these
/// are blank.
pub open spec fn offered_currency(document: DocumentView) -> Seq<char> {
    let currency = trim(kept(cut(or_else(document.currency, "EUR"@), 3)));
    if currency.len() > 0 {
        currency
    } else {
        "EUR"@
    }
}

spec fn head_read(state: ReadingView, document: DocumentView) -> bool {
    &&& state.document.project == offered_project(document)
    &&& state.document.boq == offered_boq(document)
    &&& state.document.currency == offered_currency(document)
}

/// What the fields behind the header are read as.
proof fn lemma_head_fields(document: DocumentView, moment: MomentView)
    requires
        moment.valid(),
    ensures
        trim(columns(kept(line_text(project_record(document, moment.short_date()), 2)), 2, 42))
            == offered_project(document),
        trim(columns(kept(line_text(boq_record(document), 3)), 2, 72)) == offered_boq(document),
        trim(columns(kept(line_text(currency_record(document), 4)), 2, 5)) == trim(
            kept(cut(or_else(document.currency, "EUR"@), 3)),
        ),
{
    let date = moment.short_date();
    reveal_strlit("01");
    reveal_strlit("02");
    reveal_strlit("08");
    let project = cut(or_else(document.project, "GAEB-Angebot"@), 40);
    lemma_field_text(
        seq![
            Place { column: 0, value: "01"@ },
            Place { column: 2, value: project },
            Place { column: 42, value: date },
            Place { column: 68, value: "X"@ },
        ],
        1,
        40,
        2,
    );
    assert(cut(project, 40) == project);
    let boq = cut(document.boq, 70);
    lemma_field_text(
        seq![Place { column: 0, value: "02"@ }, Place { column: 2, value: boq }],
        1,
        70,
        3,
    );
    assert(cut(boq, 70) == boq);
    let currency = or_else(document.currency, "EUR"@);
    lemma_field_text(
        seq![
            Place { column: 0, value: "08"@ },
            Place { column: 2, value: currency },
            Place { column: 6, value: currency },
        ],
        1,
        3,
        4,
    );
}

/// Records of prices and of the end leave the head alone.
proof fn lemma_head_kept(state: ReadingView, line: Seq<char>, mask: Seq<char>)
    requires
        columns(line, 0, 2) == "23"@ || columns(line, 0, 2) == "99"@,
    ensures
        ({
            let next = state.record(line, "84"@, mask).document;
            &&& next.project == state.document.project
            &&& next.boq == state.document.boq
            &&& next.currency == state.document.currency
        }),
{
    reveal(ReadingView::record);
    reveal_strlit("01");
    reveal_strlit("02");
    reveal_strlit("08");
    reveal_strlit("23");
    reveal_strlit("99");
    assert("23"@[0] == '2' && "99"@[0] == '9');
    assert("01"@[0] == '0' && "02"@[0] == '0' && "08"@[0] == '0');
}

/// From the fourth record on, a reader of an offer knows its head.
proof fn lemma_read_head(document: DocumentView, moment: MomentView, source: Seq<char>, n: nat)
    requires
        moment.valid(),
        carriable(document),
        d84(document, moment) is Ok,
        4 <= n <= offer_records(document, moment).len(),
    ensures
        head_read(
            read_until(
                line_texts(
                    offer_records(document, moment),
                    offer_records(document, moment).len(),
                ),
                n,
                source,
                "84"@,
                mask_of(shared_lengths(items_of(document.rows))->Ok_0),
            ),
            document,
        ),
    decreases n,
{
    let items = items_of(document.rows);
    let records = offer_records(document, moment);
    let all = line_texts(records, records.len());
    let mask = mask_of(shared_lengths(items)->Ok_0);
    lemma_records_prefix(items, 0, items.len());
    if n == 4 {
        lemma_head_kinds(document, moment);
        lemma_head_fields(document, moment);
        assert(all[1] == kept(line_text(records[1], 2)));
        assert(all[2] == kept(line_text(records[2], 3)));
        assert(all[3] == kept(line_text(records[3], 4)));
        let s1 = read_until(all, 1, source, "84"@, mask);
        let s2 = read_until(all, 2, source, "84"@, mask);
        let s3 = read_until(all, 3, source, "84"@, mask);
        let s4 = read_until(all, 4, source, "84"@, mask);
        assert(s2 == s1.record(all[1], "84"@, mask));
        assert(s3 == s2.record(all[2], "84"@, mask));
        assert(s4 == s3.record(all[3], "84"@, mask));
        reveal_strlit("01");
        reveal_strlit("02");
        reveal_strlit("08");
        assert("02"@[1] != "01"@[1]);
        assert("08"@[1] != "01"@[1]);
        assert("08"@[1] != "02"@[1]);
        reveal(ReadingView::record);
    } else {
        lemma_read_head(document, moment, source, (n - 1) as nat);
        let state = read_until(all, (n - 1) as nat, source, "84"@, mask);
        let line = all[n - 1];
        assert(line == kept(line_text(records[n - 1], n)));
        if n == records.len() {
            assert(records[n - 1] == end_record(items.len()));
            lemma_end_line(items.len(), n);
        } else {
            let i = (n - 5) as nat;
            lemma_records_prefix(items, i, items.len());
            let item = items[i as int];
            let ep = price_field(item.unit_price->0, 3, 11)->Ok_0;
            let gb = price_field(item.total_price->0, 2, 12)->Ok_0;
            assert(records[n - 1] == price_record(item.oz, ep, gb));
            reveal_strlit("23");
            assert("23"@ =~= seq!['2', '3']);
            lemma_kind_of(price_places(item.oz, ep, gb), '2', '3', n);
        }
        lemma_head_kept(state, line, mask);
    }
}

/// Reading a written offer gives back every item with its ordinal number and its
/// prices, in order: the unit price cut off behind three decimal places, the total
/// behind two. Project, bill and currency come back as far as they fit into their fields
/// and code page 850 has their characters.
pub proof fn law_d84_read_back(document: DocumentView, moment: MomentView, source: Seq<char>)
    requires
        moment.valid(),
        carriable(document),
        d84(document, moment) is Ok,
    ensures
        ({
            let items = items_of(document.rows);
            let read = gaeb_90(source, cp850_text(d84(document, moment)->Ok_0));
            &&& read is Ok
            &&& read->Ok_0.exchange_phase == "84"@
            &&& read->Ok_0.project == offered_project(document)
            &&& read->Ok_0.boq == offered_boq(document)
            &&& read->Ok_0.currency == offered_currency(document)
            &&& read->Ok_0.rows == offered_rows(items, items.len())
        }),
{
    let items = items_of(document.rows);
    let records = offer_records(document, moment);
    let n = records.len();
    let all = line_texts(records, n);
    let lengths = shared_lengths(items)->Ok_0;
    let mask = mask_of(lengths);
    lemma_records_prefix(items, 0, items.len());
    assert forall|k: int| 0 <= k < n implies unbroken(#[trigger] records[k]) by {
        lemma_offer_unbroken(document, moment, k);
    }
    lemma_lines_of(records, n);
    let text = cp850_text(d84(document, moment)->Ok_0);
    assert(lines(text) == all);
    assert(records_of(text) =~= all) by {
        assert forall|k: int| 0 <= k < n implies trim_end(all[k]) == all[k] by {
            assert(unbroken(records[k]));
            lemma_trim_end_line(records[k], (k + 1) as nat);
        }
    }
    lemma_header_line(lengths, 1);
    assert(all[0] == kept(line_text(header_record(lengths), 1)));
    reveal_strlit("84");
    assert(trim("84"@) == "84"@) by {
        assert(is_digit("84"@[0]) && is_digit("84"@[1]));
        lemma_trim_digits("84"@);
    }
    assert(trim(mask).len() > 0) by {
        lemma_mask_not_blank(items[0].oz);
    }
    lemma_read_prices(document, moment, source, items.len());
    let before = read_until(all, 4 + items.len(), source, "84"@, mask);
    lemma_end_line(items.len(), n);
    assert(records[n - 1] == end_record(items.len()));
    assert(all[n - 1] == kept(line_text(records[n - 1], n)));
    assert(trim(Seq::<char>::empty()) =~= Seq::<char>::empty());
    let last = read_until(all, n, source, "84"@, mask);
    assert(last == before.record(all[n - 1], "84"@, mask));
    lemma_end_step(before, all[n - 1], mask);
    assert(last.document.rows =~= offered_rows(items, items.len()));
    assert(last.closed().document.rows == last.document.rows);
    assert(offered_rows(items, items.len())[0] is Item);
    lemma_phase_kept(all, n, source, mask);
    lemma_read_head(document, moment, source, n);
}

proof fn lemma_mask_not_blank(oz: Seq<char>)
    requires
        carried(oz),
    ensures
        trim(mask_of(lengths_of(oz))).len() > 0,
{
    lemma_carried_shape(oz);
    crate::outline::lemma_split_len(oz, '.');
    lemma_part_run(oz, 0);
    let l = lengths_of(oz);
    let mask = mask_of(l);
    assert(l.take(0) =~= Seq::<nat>::empty());
    assert(split(oz, '.')[0].len() > 0);
    lemma_total_step(l, 0);
    lemma_lengths(oz);
    lemma_marker_segment(l, l.len(), 0, 0);
    assert(mask[0] == markers(l, l.len())[0]);
    assert(!is_space(mask[0]));
    assert(trim_start(mask) == mask);
    lemma_trim_end_keeps(mask);
}

proof fn lemma_trim_end_keeps(s: Seq<char>)
    requires
        s.len() > 0,
        !is_space(s[0]),
    ensures
        trim_end(s).len() > 0,
    decreases s.len(),
{
    if is_space(s.last()) {
        assert(s.drop_last()[0] == s[0]);
        lemma_trim_end_keeps(s.drop_last());
    }
}

proof fn lemma_phase_kept(all: Seq<Seq<char>>, n: nat, source: Seq<char>, mask: Seq<char>)
    ensures
        read_until(all, n, source, "84"@, mask).document.exchange_phase == "84"@,
    decreases n,
{
    if n > 1 {
        reveal(ReadingView::record);
        lemma_phase_kept(all, (n - 1) as nat, source, mask);
    }
}

/// A record is a line of 80 columns, its number in the last six of them.
proof fn lemma_line_len(record: Seq<char>, n: nat)
    requires
        record.len() == 74,
        n < 1_000_000,
    ensures
        pad_left(digits(n), 6, '0').len() == 6,
        record_line(record, n).len() == 82,
        record_line(record, n) == cp850_bytes(record) + cp850_bytes(pad_left(digits(n), 6, '0'))
            + seq![0x0du8, 0x0au8],
{
    assert(pow10(6) == 1_000_000) by {
        reveal_with_fuel(pow10, 7);
    }
    lemma_digits_len(n, 6);
    assert(record_line(record, n) =~= cp850_bytes(record) + cp850_bytes(
        pad_left(digits(n), 6, '0'),
    ) + seq![0x0du8, 0x0au8]);
}

proof fn lemma_lines_len(records: Seq<Seq<char>>, n: nat)
    requires
        n <= records.len() < 1_000_000,
        forall|k: int| 0 <= k < records.len() ==> (#[trigger] records[k]).len() == 74,
    ensures
        record_lines(records, n).len() == 82 * n,
        forall|k: int|
            0 <= k < n ==> #[trigger] record_lines(records, n).subrange(82 * k, 82 * k + 82)
                == record_line(records[k], (k + 1) as nat),
    decreases n,
{
    if n > 0 {
        let m = (n - 1) as nat;
        lemma_lines_len(records, m);
        lemma_line_len(records[n - 1], n);
        let all = record_lines(records, n);
        let front = record_lines(records, m);
        assert forall|k: int| 0 <= k < n implies #[trigger] all.subrange(82 * k, 82 * k + 82)
            == record_line(records[k], (k + 1) as nat) by {
            if k < m {
                assert(all.subrange(82 * k, 82 * k + 82) =~= front.subrange(82 * k, 82 * k + 82));
            } else {
                assert(all.subrange(82 * k, 82 * k + 82) =~= record_line(records[k], n));
            }
        }
    }
}

/// Every line of a written offer is 80 columns and a line end, whatever its texts hold:
/// 74 columns for the values, and six for the number of the line. Each character is one
/// column.
pub proof fn law_d84_columns(document: DocumentView, moment: MomentView)
    requires
        d84(document, moment) is Ok,
        items_of(document.rows).len() < 999_995,
    ensures
        ({
            let bytes = d84(document, moment)->Ok_0;
            let records = offer_records(document, moment);
            &&& records.len() == items_of(document.rows).len() + 5
            &&& bytes.len() == 82 * records.len()
            &&& forall|k: int|
                0 <= k < records.len() ==> (#[trigger] records[k]).len() == 74 && bytes.subrange(
                    82 * k,
                    82 * k + 82,
                ) == cp850_bytes(records[k]) + cp850_bytes(
                    pad_left(digits((k + 1) as nat), 6, '0'),
                ) + seq![0x0du8, 0x0au8] && pad_left(digits((k + 1) as nat), 6, '0').len() == 6
        }),
{
    let items = items_of(document.rows);
    let records = offer_records(document, moment);
    lemma_records_prefix(items, 0, items.len());
    assert forall|k: int| 0 <= k < records.len() implies (#[trigger] records[k]).len() == 74 by {
        lemma_offer_len(document, moment, k);
    }
    lemma_lines_len(records, records.len());
    let bytes = d84(document, moment)->Ok_0;
    assert forall|k: int| 0 <= k < records.len() implies (#[trigger] records[k]).len() == 74
        && bytes.subrange(82 * k, 82 * k + 82) == cp850_bytes(records[k]) + cp850_bytes(
        pad_left(digits((k + 1) as nat), 6, '0'),
    ) + seq![0x0du8, 0x0au8] && pad_left(digits((k + 1) as nat), 6, '0').len() == 6 by {
        lemma_line_len(records[k], (k + 1) as nat);
    }
}

proof fn lemma_offer_len(document: DocumentView, moment: MomentView, k: int)
    requires
        d84(document, moment) is Ok,
        0 <= k < offer_records(document, moment).len(),
    ensures
        offer_records(document, moment)[k].len() == 74,
{
    broadcast use lemma_filled_len;

    let items = items_of(document.rows);
    lemma_records_prefix(items, 0, items.len());
    if 4 <= k < 4 + items.len() {
        lemma_records_prefix(items, (k - 4) as nat, items.len());
    }
}

} // verus!
