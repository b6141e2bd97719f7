//! What reading gives back of a written GAEB DA 2000 offer.

use crate::clock::MomentView;
use crate::decimal::{magnitude, pow10, Dec};
use crate::document::{empty_item, has_item, title_at, DocumentView, ItemView, RowView};
use crate::gaeb2000::{
    before, block, byte_slice, comma_number, compact_parts, depth, dotted, fresh, gaeb_2000,
    last_open, lemma_value_pending, lines_read, resolved, tagged, windows_1252_char,
    windows_1252_text, with_text_line, TaggedView, WINDOWS_1252_CONTROLS,
};
use crate::gaeb2000_export::{
    closing_lines, entry, escaped, indented, item_lines, left_open, level_lengths, level_lines,
    levels_lines, longest_last, open_until, opening_lines, or_one, p84, p84_lines, price_text,
    row_lines, rows_lines, undotted, windows_1252_byte, windows_1252_bytes, with_line_ends,
    CONVERTER_NAME,
};
use crate::gaeb90_export::{fully_priced, items_of, or_else};
use crate::gaeb90_laws::{
    law_join_undoes_split, lemma_join_front, lemma_lines_append, lemma_lines_single,
    lemma_price_value,
};
use crate::text::{
    all_digits, digits, digits_value, is_digit, is_space, join, lemma_digits, lemma_position_of,
    lemma_position_of_found, lemma_replace_absent, lemma_replace_char_concat, lines, position_of,
    replace, size_in, split, trim, trim_end, trim_start, without_end, without_return,
};
use vstd::prelude::*;
use vstd::utf8::encode_utf8;

verus! {

/// The bytes of two texts one behind the other.
pub proof fn lemma_encode_concat(a: Seq<char>, b: Seq<char>)
    ensures
        encode_utf8(a + b) == encode_utf8(a) + encode_utf8(b),
    decreases a.len(),
{
    if a.len() == 0 {
        assert(a + b =~= b);
        assert(encode_utf8(a) + encode_utf8(b) =~= encode_utf8(b));
    } else {
        assert((a + b).drop_first() =~= a.drop_first() + b);
        lemma_encode_concat(a.drop_first(), b);
        assert(encode_utf8(a + b) =~= encode_utf8(a) + encode_utf8(b));
    }
}

proof fn lemma_trim_len(s: Seq<char>)
    ensures
        trim_start(s).len() <= s.len(),
        trim_end(s).len() <= s.len(),
    decreases s.len(),
{
    if s.len() > 0 {
        lemma_trim_len(s.skip(1));
        lemma_trim_len(s.drop_last());
    }
}

/// A text that trimming leaves alone has no white space at its ends.
pub proof fn lemma_trimmed_ends(s: Seq<char>)
    requires
        trim(s) == s,
        s.len() > 0,
    ensures
        !is_space(s[0]),
        !is_space(s.last()),
{
    if is_space(s[0]) {
        lemma_trim_len(s.skip(1));
        lemma_trim_len(trim_start(s));
    } else if is_space(s.last()) {
        lemma_trim_len(s.drop_last());
    }
}

proof fn lemma_trim_end_stable(s: Seq<char>)
    ensures
        trim_end(s).len() == 0 || !is_space(trim_end(s).last()),
        trim_end(s).is_prefix_of(s),
    decreases s.len(),
{
    if s.len() > 0 && is_space(s.last()) {
        lemma_trim_end_stable(s.drop_last());
        assert(s.take(trim_end(s).len() as int) =~= s.drop_last().take(trim_end(s).len() as int));
    } else {
        assert(s.take(s.len() as int) =~= s);
    }
}

proof fn lemma_trim_start_stable(s: Seq<char>)
    ensures
        trim_start(s).len() == 0 || !is_space(trim_start(s)[0]),
    decreases s.len(),
{
    if s.len() > 0 && is_space(s[0]) {
        lemma_trim_start_stable(s.skip(1));
    }
}

/// Trimming twice is trimming once.
pub proof fn law_trim_once(s: Seq<char>)
    ensures
        trim(trim(s)) == trim(s),
{
    lemma_trim_start_stable(s);
    lemma_trim_end_stable(trim_start(s));
    let t = trim(s);
    if t.len() > 0 {
        assert(t[0] == trim_start(s)[0]);
    }
}

/// An ordinal number whose parts have, in bytes, the lengths of their levels. One part
/// more than there are levels may stand behind them.
pub open spec fn regular(oz: Seq<char>, lengths: Seq<nat>) -> bool {
    let p = split(oz, '.');
    &&& p.len() <= lengths.len() + 1
    &&& forall|i: int| 0 <= i < p.len() ==> (#[trigger] p[i]).len() > 0 && trim(p[i]) == p[i]
    &&& forall|i: int|
        0 <= i < p.len() && i < lengths.len() ==> encode_utf8(#[trigger] p[i]).len() == lengths[i]
}

proof fn lemma_encode_nonempty(s: Seq<char>)
    requires
        s.len() > 0,
    ensures
        encode_utf8(s).len() > 0,
{
    assert(s =~= seq![s[0]] + s.skip(1));
    vstd::utf8::char_is_scalar(s[0]);
}

proof fn lemma_join_skip(p: Seq<Seq<char>>, k: int)
    requires
        0 <= k < p.len(),
    ensures
        join(p.skip(k), seq![]) == p[k] + join(p.skip(k + 1), seq![]),
{
    let q = p.skip(k);
    if q.len() > 1 {
        lemma_join_front(q, seq![]);
        assert(q.skip(1) =~= p.skip(k + 1));
        assert(join(q, seq![]) =~= p[k] + join(p.skip(k + 1), seq![]));
    } else {
        assert(p.skip(k + 1) =~= Seq::<Seq<char>>::empty());
        assert(join(q, seq![]) =~= p[k] + join(p.skip(k + 1), seq![]));
    }
}

proof fn lemma_join_nonempty(p: Seq<Seq<char>>)
    requires
        p.len() > 0,
        p[0].len() > 0,
    ensures
        join(p, seq![]).len() > 0,
{
    lemma_join_skip(p, 0);
    assert(p.skip(0) =~= p);
}

/// Cutting a row of parts at the lengths of its levels gives the parts.
proof fn lemma_compact_parts(front: Seq<char>, p: Seq<Seq<char>>, k: int, lengths: Seq<nat>)
    requires
        0 <= k < p.len(),
        p.len() <= lengths.len() + 1,
        forall|i: int| 0 <= i < p.len() ==> (#[trigger] p[i]).len() > 0 && trim(p[i]) == p[i],
        forall|i: int|
            0 <= i < p.len() && i < lengths.len() ==> encode_utf8(#[trigger] p[i]).len()
                == lengths[i],
    ensures
        compact_parts(
            front + join(p.skip(k), seq![]),
            lengths,
            k as nat,
            encode_utf8(front).len(),
        ) == p.skip(k),
    decreases p.len() - k,
{
    let rest = join(p.skip(k + 1), seq![]);
    let s = front + join(p.skip(k), seq![]);
    lemma_join_skip(p, k);
    assert(s =~= front + p[k] + rest);
    lemma_encode_concat(front + p[k], rest);
    lemma_encode_concat(front, p[k]);
    let at = encode_utf8(front).len() as int;
    let part = encode_utf8(p[k]);
    let next = at + part.len();
    let all = encode_utf8(s);
    assert(all.subrange(at, next) =~= part);
    vstd::utf8::encode_utf8_valid_utf8(p[k]);
    vstd::utf8::encode_utf8_decode_utf8(p[k]);
    assert(byte_slice(s, at, next) == p[k]);
    assert(p[k].len() > 0 && trim(p[k]) == p[k]);
    lemma_encode_nonempty(p[k]);
    if k == p.len() - 1 {
        assert(p.skip(k + 1) =~= Seq::<Seq<char>>::empty());
        assert(rest =~= Seq::<char>::empty());
        assert(encode_utf8(rest) =~= Seq::<u8>::empty());
        assert(next == all.len());
        assert(p.skip(k) =~= seq![p[k]]);
        assert(compact_parts(s, lengths, k as nat, at as nat) =~= seq![p[k]]);
    } else {
        assert(p[k + 1].len() > 0);
        lemma_join_nonempty(p.skip(k + 1));
        lemma_encode_nonempty(rest);
        assert(lengths[k] == part.len());
        lemma_compact_parts(front + p[k], p, k + 1, lengths);
        assert(s =~= front + p[k] + join(p.skip(k + 1), seq![]));
        assert(p.skip(k) =~= seq![p[k]] + p.skip(k + 1));
    }
}

/// A regular ordinal number written without its dots gets them back.
pub proof fn law_dots_return(oz: Seq<char>, lengths: Seq<nat>)
    requires
        regular(oz, lengths),
    ensures
        dotted(undotted(oz), lengths) == oz,
        trim(undotted(oz)) == undotted(oz),
{
    let p = split(oz, '.');
    crate::outline::lemma_split_len(oz, '.');
    let front = Seq::<char>::empty();
    lemma_compact_parts(front, p, 0, lengths);
    assert(p.skip(0) =~= p);
    assert(front + join(p.skip(0), seq![]) =~= undotted(oz));
    assert(encode_utf8(front) =~= Seq::<u8>::empty());
    reveal_strlit(".");
    assert("."@ =~= seq!['.']);
    law_join_undoes_split(oz, '.');
    let flat = undotted(oz);
    lemma_join_skip(p, 0);
    assert(p[0].len() > 0 && trim(p[0]) == p[0]);
    lemma_trimmed_ends(p[0]);
    assert(flat[0] == p[0][0]);
    let last = p[p.len() - 1];
    assert(last.len() > 0 && trim(last) == last);
    lemma_trimmed_ends(last);
    assert(flat.last() == last.last());
}

/// A byte of Windows-1252 is written as it was read.
pub proof fn law_windows_1252_byte(b: u8)
    ensures
        windows_1252_byte(windows_1252_char(b)) == b,
        b < 0x80 ==> windows_1252_char(b) == b as char,
        b >= 0x80 ==> windows_1252_char(b) > '\u{7f}',
{
    reveal_strlit(
        "\u{20AC}\u{0081}\u{201A}\u{0192}\u{201E}\u{2026}\u{2020}\u{2021}\u{02C6}\u{2030}\u{0160}\u{2039}\u{0152}\u{008D}\u{017D}\u{008F}\u{0090}\u{2018}\u{2019}\u{201C}\u{201D}\u{2022}\u{2013}\u{2014}\u{02DC}\u{2122}\u{0161}\u{203A}\u{0153}\u{009D}\u{017E}\u{0178}",
    );
    let t = WINDOWS_1252_CONTROLS@;
    assert(t[0] == '\u{20AC}');
    assert(t[1] == '\u{0081}');
    assert(t[2] == '\u{201A}');
    assert(t[3] == '\u{0192}');
    assert(t[4] == '\u{201E}');
    assert(t[5] == '\u{2026}');
    assert(t[6] == '\u{2020}');
    assert(t[7] == '\u{2021}');
    assert(t[8] == '\u{02C6}');
    assert(t[9] == '\u{2030}');
    assert(t[10] == '\u{0160}');
    assert(t[11] == '\u{2039}');
    assert(t[12] == '\u{0152}');
    assert(t[13] == '\u{008D}');
    assert(t[14] == '\u{017D}');
    assert(t[15] == '\u{008F}');
    assert(t[16] == '\u{0090}');
    assert(t[17] == '\u{2018}');
    assert(t[18] == '\u{2019}');
    assert(t[19] == '\u{201C}');
    assert(t[20] == '\u{201D}');
    assert(t[21] == '\u{2022}');
    assert(t[22] == '\u{2013}');
    assert(t[23] == '\u{2014}');
    assert(t[24] == '\u{02DC}');
    assert(t[25] == '\u{2122}');
    assert(t[26] == '\u{0161}');
    assert(t[27] == '\u{203A}');
    assert(t[28] == '\u{0153}');
    assert(t[29] == '\u{009D}');
    assert(t[30] == '\u{017E}');
    assert(t[31] == '\u{0178}');
}

/// Bytes of Windows-1252 are written as they were read.
pub proof fn law_windows_1252(bytes: Seq<u8>)
    ensures
        windows_1252_bytes(windows_1252_text(bytes)) == bytes,
{
    assert forall|i: int| 0 <= i < bytes.len() implies #[trigger] windows_1252_bytes(
        windows_1252_text(bytes),
    )[i] == bytes[i] by {
        law_windows_1252_byte(bytes[i]);
    }
    assert(windows_1252_bytes(windows_1252_text(bytes)) =~= bytes);
}

/// What a written text reads as: Windows-1252 keeps the characters it has.
pub open spec fn kept_1252(s: Seq<char>) -> Seq<char> {
    windows_1252_text(windows_1252_bytes(s))
}

proof fn lemma_kept_char(c: char)
    ensures
        c <= '\u{7f}' ==> windows_1252_char(windows_1252_byte(c)) == c,
        c > '\u{7f}' ==> windows_1252_char(windows_1252_byte(c)) > '\u{7f}'
            || windows_1252_char(windows_1252_byte(c)) == '?',
{
    law_windows_1252_byte(windows_1252_byte(c));
}

proof fn lemma_kept(s: Seq<char>, c: char)
    requires
        c <= '\u{7f}',
        c != '?',
        !s.contains(c),
    ensures
        !kept_1252(s).contains(c),
{
    assert forall|i: int| 0 <= i < s.len() implies kept_1252(s)[i] != c by {
        lemma_kept_char(s[i]);
        assert(s.contains(s[i]));
    }
}

proof fn lemma_kept_concat(a: Seq<char>, b: Seq<char>)
    ensures
        kept_1252(a + b) == kept_1252(a) + kept_1252(b),
{
    assert(kept_1252(a + b) =~= kept_1252(a) + kept_1252(b));
}

/// A text of plain characters.
pub open spec fn basic(s: Seq<char>) -> bool {
    forall|i: int| 0 <= i < s.len() ==> #[trigger] s[i] <= '\u{7f}'
}

proof fn lemma_kept_basic(s: Seq<char>)
    requires
        basic(s),
    ensures
        kept_1252(s) == s,
{
    assert forall|i: int| 0 <= i < s.len() implies kept_1252(s)[i] == s[i] by {
        lemma_kept_char(s[i]);
    }
    assert(kept_1252(s) =~= s);
}

/// The state after a row of lines.
pub open spec fn run(state: TaggedView, all: Seq<Seq<char>>) -> TaggedView
    decreases all.len(),
{
    if all.len() == 0 {
        state
    } else {
        run(state, all.drop_last()).line(all.last())
    }
}

proof fn lemma_run_concat(state: TaggedView, a: Seq<Seq<char>>, b: Seq<Seq<char>>)
    ensures
        run(state, a + b) == run(run(state, a), b),
    decreases b.len(),
{
    if b.len() == 0 {
        assert(a + b =~= a);
    } else {
        lemma_run_concat(state, a, b.drop_last());
        assert((a + b).drop_last() =~= a + b.drop_last());
        assert((a + b).last() == b.last());
    }
}

proof fn lemma_run_all(all: Seq<Seq<char>>, n: nat, source: Seq<char>)
    requires
        n <= all.len(),
    ensures
        lines_read(all, n, source) == run(fresh(source), all.take(n as int)),
    decreases n,
{
    if n > 0 {
        lemma_run_all(all, (n - 1) as nat, source);
        assert(all.take(n as int).drop_last() =~= all.take(n - 1));
        assert(all.take(n as int).last() == all[n - 1]);
    }
}

/// The state after one written line, which is read as several where its value holds
/// line feeds.
pub open spec fn step(state: TaggedView, line: Seq<char>) -> TaggedView {
    run(state, lines(kept_1252(line) + seq!['\r', '\n']))
}

/// The state after the first `n` written lines.
pub open spec fn steps(state: TaggedView, written: Seq<Seq<char>>, n: nat) -> TaggedView
    decreases n,
{
    if n == 0 {
        state
    } else {
        step(steps(state, written, (n - 1) as nat), written[n - 1])
    }
}

proof fn lemma_steps(state: TaggedView, written: Seq<Seq<char>>, n: nat)
    requires
        n <= written.len(),
    ensures
        run(state, lines(kept_1252(with_line_ends(written.take(n as int))))) == steps(
            state,
            written,
            n,
        ),
        n == 0 ==> kept_1252(with_line_ends(written.take(n as int))).len() == 0,
        n > 0 ==> kept_1252(with_line_ends(written.take(n as int))).len() > 0 && kept_1252(
            with_line_ends(written.take(n as int)),
        ).last() == '\n',
    decreases n,
{
    if n == 0 {
        assert(lines(kept_1252(with_line_ends(written.take(0)))) =~= Seq::<Seq<char>>::empty());
    } else {
        let m = (n - 1) as nat;
        lemma_steps(state, written, m);
        let front = with_line_ends(written.take(m as int));
        let last = written[n - 1];
        assert(written.take(n as int).drop_last() =~= written.take(m as int));
        assert(written.take(n as int).last() == last);
        reveal_strlit("\r\n");
        let end = seq!['\r', '\n'];
        assert("\r\n"@ =~= end);
        assert(basic(end));
        lemma_kept_concat(front + last, end);
        lemma_kept_concat(front, last);
        lemma_kept_basic(end);
        let tail = kept_1252(last) + end;
        assert(kept_1252(with_line_ends(written.take(n as int))) =~= kept_1252(front) + tail);
        lemma_lines_append(kept_1252(front), tail);
        lemma_run_concat(state, lines(kept_1252(front)), lines(tail));
    }
}

proof fn lemma_steps_concat(state: TaggedView, a: Seq<Seq<char>>, b: Seq<Seq<char>>, n: nat)
    requires
        n <= b.len(),
    ensures
        steps(state, a + b, a.len() + n) == steps(steps(state, a, a.len()), b, n),
    decreases n,
{
    if n == 0 {
        lemma_steps_front(state, a, b, a.len());
    } else {
        lemma_steps_concat(state, a, b, (n - 1) as nat);
        assert((a + b)[a.len() + n - 1] == b[n - 1]);
    }
}

proof fn lemma_steps_front(state: TaggedView, a: Seq<Seq<char>>, b: Seq<Seq<char>>, n: nat)
    requires
        n <= a.len(),
    ensures
        steps(state, a + b, n) == steps(state, a, n),
    decreases n,
{
    if n > 0 {
        lemma_steps_front(state, a, b, (n - 1) as nat);
        assert((a + b)[n - 1] == a[n - 1]);
    }
}

proof fn lemma_trim_start_indented(n: nat, w: Seq<char>)
    requires
        w.len() > 0,
        !is_space(w[0]),
    ensures
        trim_start(indented(n, w)) == w,
    decreases n,
{
    if n == 0 {
        assert(indented(0, w) =~= w);
    } else {
        lemma_trim_start_indented((n - 1) as nat, w);
        assert(indented(n, w).skip(1) =~= indented((n - 1) as nat, w));
        assert(indented(n, w)[0] == ' ');
    }
}

/// A line that ends in a bracket, without the blanks in front of its content.
proof fn lemma_content(n: nat, w: Seq<char>)
    requires
        w.len() > 0,
        !is_space(w[0]),
        w.last() == ']',
    ensures
        trim(without_end(indented(n, w), '\r')) == w,
{
    assert(indented(n, w).last() == ']');
    lemma_trim_start_indented(n, w);
}

proof fn lemma_one_line(state: TaggedView, line: Seq<char>)
    requires
        !kept_1252(line).contains('\n'),
    ensures
        step(state, line) == state.line(kept_1252(line)),
{
    let x = kept_1252(line);
    lemma_lines_single(x);
    assert(seq![x].drop_last() =~= Seq::<Seq<char>>::empty());
    assert(run(state, seq![x].drop_last()) == state);
}

proof fn lemma_kept_indented(n: nat, w: Seq<char>)
    ensures
        kept_1252(indented(n, w)) == indented(n, kept_1252(w)),
{
    let blanks = Seq::new(n, |i: int| ' ');
    lemma_kept_concat(blanks, w);
    assert(basic(blanks));
    lemma_kept_basic(blanks);
}

/// A written line that opens a block opens it.
proof fn lemma_begin(s: TaggedView, n: nat, whole: Seq<char>, name: Seq<char>)
    requires
        s.pending is None,
        whole == "#begin["@ + name + "]"@,
        basic(name),
        !name.contains('\n'),
    ensures
        step(s, indented(n, whole)) == s.begun(name),
{
    reveal_strlit("#begin[");
    reveal_strlit("]");
    let l = indented(n, whole);
    assert(basic(whole));
    lemma_kept_indented(n, whole);
    lemma_kept_basic(whole);
    assert forall|i: int| 0 <= i < l.len() implies l[i] != '\n' by {
        if i >= n + 7 && i < n + 7 + name.len() {
            assert(l[i] == name[i - n - 7]);
            assert(name.contains(name[i - n - 7]));
        }
    }
    lemma_one_line(s, l);
    lemma_content(n, whole);
    let rest = name + "]"@;
    assert(whole.skip(7) =~= rest);
    assert("#begin["@.is_prefix_of(whole)) by {
        assert(whole.subrange(0, 7) =~= "#begin["@);
    }
    assert("]"@.is_suffix_of(rest)) by {
        assert(rest.subrange(rest.len() - 1, rest.len() as int) =~= "]"@);
    }
    assert(rest.take(rest.len() - 1) =~= name);
    reveal(TaggedView::line);
}

/// A written line that closes a block closes it.
proof fn lemma_end(s: TaggedView, n: nat, whole: Seq<char>, name: Seq<char>)
    requires
        s.pending is None,
        whole == "#end["@ + name + "]"@,
        basic(name),
        !name.contains('\n'),
    ensures
        step(s, indented(n, whole)) == s.ended(name),
{
    reveal_strlit("#begin[");
    reveal_strlit("#end[");
    reveal_strlit("]");
    let l = indented(n, whole);
    assert(basic(whole));
    lemma_kept_indented(n, whole);
    lemma_kept_basic(whole);
    assert forall|i: int| 0 <= i < l.len() implies l[i] != '\n' by {
        if i >= n + 5 && i < n + 5 + name.len() {
            assert(l[i] == name[i - n - 5]);
            assert(name.contains(name[i - n - 5]));
        }
    }
    lemma_one_line(s, l);
    lemma_content(n, whole);
    let rest = name + "]"@;
    assert(whole.skip(5) =~= rest);
    assert(!"#begin["@.is_prefix_of(whole)) by {
        assert(whole[1] == 'e');
        if "#begin["@.is_prefix_of(whole) {
            assert(whole.subrange(0, 7)[1] == whole[1]);
        }
    }
    assert("#end["@.is_prefix_of(whole)) by {
        assert(whole.subrange(0, 5) =~= "#end["@);
    }
    assert("]"@.is_suffix_of(rest)) by {
        assert(rest.subrange(rest.len() - 1, rest.len() as int) =~= "]"@);
    }
    assert(rest.take(rest.len() - 1) =~= name);
    reveal(TaggedView::line);
}

proof fn lemma_replace_without(s: Seq<char>, p: Seq<char>, w: Seq<char>, c: char)
    requires
        p.len() == 1,
        c == p[0] || !s.contains(c),
        !w.contains(c),
    ensures
        !replace(s, p, w).contains(c),
    decreases s.len(),
{
    if s.len() > 0 {
        let rest = s.skip(1);
        if c != p[0] {
            assert forall|i: int| 0 <= i < rest.len() implies rest[i] != c by {
                assert(s.contains(s[i + 1]));
            }
            assert(s.contains(s[0]));
        }
        lemma_replace_without(rest, p, w, c);
        let tail = replace(rest, p, w);
        let r = replace(s, p, w);
        assert forall|i: int| 0 <= i < r.len() implies r[i] != c by {
            if p.is_prefix_of(s) {
                if i < w.len() {
                    assert(w.contains(w[i]));
                } else {
                    assert(tail.contains(tail[i - w.len()]));
                }
            } else {
                if i == 0 {
                    if s[0] == p[0] {
                        assert(s.subrange(0, 1) =~= p);
                    }
                } else {
                    assert(tail.contains(tail[i - 1]));
                }
            }
        }
    }
}

/// An escaped value holds no brackets.
proof fn lemma_escaped(v: Seq<char>)
    ensures
        !escaped(v).contains('['),
        !v.contains('\n') ==> !escaped(v).contains('\n'),
        !v.contains('&') && !v.contains('[') && !v.contains(']') ==> escaped(v) == v,
{
    reveal_strlit("&");
    reveal_strlit("[");
    reveal_strlit("]");
    reveal_strlit("&#38;");
    reveal_strlit("&#91;");
    reveal_strlit("&#93;");
    let a = replace(v, "&"@, "&#38;"@);
    let b = replace(a, "["@, "&#91;"@);
    lemma_replace_without(a, "["@, "&#91;"@, '[');
    lemma_replace_without(b, "]"@, "&#93;"@, '[');
    if !v.contains('\n') {
        lemma_replace_without(v, "&"@, "&#38;"@, '\n');
        lemma_replace_without(a, "["@, "&#91;"@, '\n');
        lemma_replace_without(b, "]"@, "&#93;"@, '\n');
    }
    if !v.contains('&') && !v.contains('[') && !v.contains(']') {
        lemma_replace_absent(v, "&"@, "&#38;"@);
        lemma_replace_absent(v, "["@, "&#91;"@);
        lemma_replace_absent(v, "]"@, "&#93;"@);
    }
}

proof fn lemma_trim_end_behind(front: Seq<char>, y: Seq<char>)
    requires
        front.len() > 0,
        !is_space(front.last()),
    ensures
        trim_end(front + y) == front + trim_end(y),
        trim_end(y).len() <= y.len(),
    decreases y.len(),
{
    if y.len() > 0 && is_space(y.last()) {
        lemma_trim_end_behind(front, y.drop_last());
        assert((front + y).drop_last() =~= front + y.drop_last());
    } else if y.len() == 0 {
        assert(front + y =~= front);
    }
}

proof fn lemma_without_end_behind(front: Seq<char>, y: Seq<char>)
    requires
        front.len() > 0,
        front.last() != '\r',
    ensures
        without_end(front + y, '\r') == front + without_end(y, '\r'),
    decreases y.len(),
{
    if y.len() > 0 && y.last() == '\r' {
        lemma_without_end_behind(front, y.drop_last());
        assert((front + y).drop_last() =~= front + y.drop_last());
    } else if y.len() == 0 {
        assert(front + y =~= front);
    }
}

/// What trimming leaves holds no character that was not there.
proof fn lemma_trim_subset(y: Seq<char>, c: char)
    requires
        !y.contains(c),
    ensures
        !trim_start(y).contains(c),
        !trim_end(y).contains(c),
        !without_end(y, '\r').contains(c),
        !without_return(y).contains(c),
    decreases y.len(),
{
    if y.len() > 0 {
        assert forall|i: int| 0 <= i < y.skip(1).len() implies y.skip(1)[i] != c by {
            assert(y.contains(y[i + 1]));
        }
        assert forall|i: int| 0 <= i < y.drop_last().len() implies y.drop_last()[i] != c by {
            assert(y.contains(y[i]));
        }
        lemma_trim_subset(y.skip(1), c);
        lemma_trim_subset(y.drop_last(), c);
    }
}

proof fn lemma_no_end_mark(y: Seq<char>)
    requires
        !y.contains('['),
    ensures
        before(y, "[end]"@) is None,
{
    reveal_strlit("[end]");
    if "[end]"@.is_suffix_of(y) {
        let tail = y.subrange(y.len() - 5, y.len() as int);
        assert(tail[0] == '[');
        assert(y[y.len() - 5] == '[');
    }
}

proof fn lemma_trim_start_marked(y: Seq<char>) -> (z: Seq<char>)
    ensures
        trim_start(y + "[end]"@) == z + "[end]"@,
    decreases y.len(),
{
    reveal_strlit("[end]");
    let s = y + "[end]"@;
    if y.len() > 0 && is_space(y[0]) {
        assert(s.skip(1) =~= y.skip(1) + "[end]"@);
        lemma_trim_start_marked(y.skip(1))
    } else {
        if y.len() == 0 {
            assert(s =~= "[end]"@);
            assert(s[0] == '[');
        }
        y
    }
}

/// A value that is read over several lines ends where it was made to end.
proof fn lemma_pending(s: TaggedView, tag: Seq<char>, value: Seq<char>, body: Seq<char>) -> (w: Seq<
    char,
>)
    requires
        s.pending == Some((tag, value)),
        !body.contains('['),
    ensures
        run(s, lines(body + "[end]"@ + seq!['\r', '\n'])) == (TaggedView {
            pending: None,
            ..s
        }).value(tag, w),
    decreases body.len(),
{
    reveal_strlit("[end]");
    reveal(TaggedView::line);
    let end = seq!['\r', '\n'];
    let all = body + "[end]"@ + end;
    let n = position_of(body, '\n') as int;
    lemma_position_of_found(body, '\n');
    if n >= body.len() {
        let l = body + "[end]"@;
        assert forall|i: int| 0 <= i < l.len() implies l[i] != '\n' by {
            if i < body.len() {
                assert(body[i] != '\n');
            }
        }
        lemma_lines_single(l);
        assert(lines(all) == seq![l]);
        assert(seq![l].drop_last() =~= Seq::<Seq<char>>::empty());
        assert(run(s, seq![l].drop_last()) == s);
        assert(l.last() == ']');
        assert(without_end(l, '\r') == l);
        let z = lemma_trim_start_marked(body);
        let content = z + "[end]"@;
        assert(content.last() == ']');
        assert(trim(l) == content);
        assert("[end]"@.is_suffix_of(content)) by {
            assert(content.subrange(content.len() - 5, content.len() as int) =~= "[end]"@);
        }
        assert(content.take(content.len() - 5) =~= z);
        let whole = if z.len() > 0 {
            with_text_line(value, z)
        } else {
            value
        };
        lemma_value_pending(s, TaggedView { pending: None, ..s }, tag, whole);
        whole
    } else {
        let first = without_return(body.take(n));
        let rest = body.skip(n + 1);
        assert forall|i: int| 0 <= i < n implies all[i] != '\n' by {
            assert(all[i] == body[i]);
        }
        assert(all[n] == body[n]);
        lemma_position_of(all, '\n', n);
        assert(all.take(n) =~= body.take(n));
        let tail = rest + "[end]"@ + end;
        assert(all.skip(n + 1) =~= tail);
        lemma_run_concat(s, seq![first], lines(tail));
        assert(seq![first].drop_last() =~= Seq::<Seq<char>>::empty());
        assert(run(s, seq![first].drop_last()) == s);
        assert forall|i: int| 0 <= i < body.take(n).len() implies body.take(n)[i] != '[' by {
            assert(body.contains(body[i]));
        }
        assert forall|i: int| 0 <= i < rest.len() implies rest[i] != '[' by {
            assert(body.contains(body[n + 1 + i]));
        }
        lemma_trim_subset(body.take(n), '[');
        lemma_trim_subset(first, '[');
        let line = without_end(first, '\r');
        lemma_trim_subset(line, '[');
        lemma_trim_subset(trim_start(line), '[');
        lemma_no_end_mark(trim(line));
        let next = s.line(first);
        let more = with_text_line(value, trim_start(line));
        assert(next == TaggedView { pending: Some((tag, more)), ..s });
        let w = lemma_pending(next, tag, more, rest);
        assert((TaggedView { pending: None, ..next }) == (TaggedView { pending: None, ..s }));
        w
    }
}

/// The content of a line that starts with a tag.
proof fn lemma_tagged_content(n: nat, name: Seq<char>, y: Seq<char>) -> (z: Seq<char>)
    ensures
        trim(without_end(indented(n, "["@ + name + "]"@ + y), '\r')) == "["@ + name + "]"@ + z,
        !y.contains('[') ==> !z.contains('['),
        y.len() > 0 && y.last() == ']' ==> z == y,
{
    reveal_strlit("[");
    reveal_strlit("]");
    let front = "["@ + name + "]"@;
    let far = indented(n, front);
    assert(front.last() == ']' && far.last() == ']');
    assert(indented(n, front + y) =~= far + y);
    lemma_without_end_behind(far, y);
    let x = without_end(y, '\r');
    assert(far + x =~= indented(n, front + x));
    assert((front + x)[0] == '[');
    lemma_trim_start_indented(n, front + x);
    lemma_trim_end_behind(front, x);
    if !y.contains('[') {
        lemma_trim_subset(y, '[');
        lemma_trim_subset(x, '[');
    }
    trim_end(x)
}

proof fn lemma_tagged(name: Seq<char>, z: Seq<char>)
    requires
        !name.contains(']'),
    ensures
        tagged("["@ + name + "]"@ + z) == Some((name, z)),
        block("["@ + name + "]"@ + z, "#begin["@) is None,
        block("["@ + name + "]"@ + z, "#end["@) is None,
{
    reveal_strlit("[");
    reveal_strlit("]");
    reveal_strlit("#begin[");
    reveal_strlit("#end[");
    let content = "["@ + name + "]"@ + z;
    assert(content[0] == '[');
    if "#begin["@.is_prefix_of(content) {
        assert(content.subrange(0, 7)[0] == content[0]);
    }
    if "#end["@.is_prefix_of(content) {
        assert(content.subrange(0, 5)[0] == content[0]);
    }
    assert("["@.is_prefix_of(content)) by {
        assert(content.subrange(0, 1) =~= "["@);
    }
    let rest = content.skip(1);
    assert forall|i: int| 0 <= i < name.len() implies rest[i] != ']' by {
        assert(name.contains(name[i]));
    }
    assert(rest[name.len() as int] == ']');
    lemma_position_of(rest, ']', name.len() as int);
    assert(rest.take(name.len() as int) =~= name);
    assert(rest.skip(name.len() as int + 1) =~= z);
}

spec fn tag_head(name: Seq<char>) -> Seq<char> {
    "["@ + name + "]"@
}

proof fn lemma_entry_line(s: TaggedView, n: nat, name: Seq<char>, k: Seq<char>)
    requires
        s.pending is None,
        !name.contains('\n'),
        !name.contains(']'),
        !k.contains('\n'),
    ensures
        run(s, lines(indented(n, tag_head(name) + k + "[end]"@) + seq!['\r', '\n'])) == s.value(
            name,
            k,
        ),
{
    reveal_strlit("[");
    reveal_strlit("]");
    reveal_strlit("[end]");
    let mark = "[end]"@;
    let head = tag_head(name);
    let line = indented(n, head + k + mark);
    assert forall|i: int| 0 <= i < line.len() implies line[i] != '\n' by {
        if i >= n + 1 && i < n + 1 + name.len() {
            assert(line[i] == name[i - n - 1]);
            assert(name.contains(name[i - n - 1]));
        } else if i >= n + 2 + name.len() && i < n + 2 + name.len() + k.len() {
            assert(line[i] == k[i - (n + 2 + name.len())]);
            assert(k.contains(k[i - (n + 2 + name.len())]));
        }
    }
    lemma_lines_single(line);
    assert(seq![line].drop_last() =~= Seq::<Seq<char>>::empty());
    assert(run(s, seq![line].drop_last()) == s);
    let z = lemma_tagged_content(n, name, k + mark);
    assert(head + k + mark =~= head + (k + mark));
    assert((k + mark).last() == ']');
    lemma_tagged(name, z);
    assert("[end]"@.is_suffix_of(z)) by {
        assert(z.subrange(z.len() - 5, z.len() as int) =~= "[end]"@);
    }
    assert(z.take(z.len() - 5) =~= k);
    reveal(TaggedView::line);
}

proof fn lemma_entry_lines(s: TaggedView, n: nat, name: Seq<char>, k: Seq<char>) -> (w: Seq<char>)
    requires
        s.pending is None,
        !name.contains('\n'),
        !name.contains(']'),
        !k.contains('['),
        k.contains('\n'),
    ensures
        run(s, lines(indented(n, tag_head(name) + k + "[end]"@) + seq!['\r', '\n'])) == s.value(
            name,
            w,
        ),
{
    reveal_strlit("[");
    reveal_strlit("]");
    let mark = "[end]"@;
    let head = tag_head(name);
    let m = position_of(k, '\n') as int;
    lemma_position_of_found(k, '\n');
    let end = seq!['\r', '\n'];
    let all = indented(n, head + k + mark) + end;
    let front = indented(n, head);
    let at = front.len() + m;
    let rest = k.skip(m + 1);
    let tail = rest + mark + end;
    assert(all =~= front + (k + (mark + end)));
    assert forall|i: int| 0 <= i < at implies all[i] != '\n' by {
        if i >= front.len() {
            assert(all[i] == k[i - front.len()]);
        } else if i >= n + 1 && i < n + 1 + name.len() {
            assert(all[i] == name[i - n - 1]);
            assert(name.contains(name[i - n - 1]));
        }
    }
    assert(all[at] == k[m]);
    lemma_position_of(all, '\n', at);
    let y = k.take(m);
    assert(all.take(at) =~= front + y);
    assert(all.skip(at + 1) =~= tail);
    let x = without_return(y);
    let first = without_return(front + y);
    assert(first =~= front + x) by {
        assert(front.last() == ']');
        if y.len() == 0 {
            assert(front + y =~= front);
        } else if y.last() == '\r' {
            assert((front + y).drop_last() =~= front + y.drop_last());
        }
    }
    assert(lines(all) == seq![first] + lines(tail));
    lemma_run_concat(s, seq![first], lines(tail));
    assert(seq![first].drop_last() =~= Seq::<Seq<char>>::empty());
    assert(run(s, seq![first].drop_last()) == s);
    assert forall|i: int| 0 <= i < y.len() implies y[i] != '[' by {
        assert(k.contains(k[i]));
    }
    assert forall|i: int| 0 <= i < rest.len() implies rest[i] != '[' by {
        assert(k.contains(k[m + 1 + i]));
    }
    lemma_trim_subset(y, '[');
    let z = lemma_tagged_content(n, name, x);
    assert(front + x =~= indented(n, head + x));
    lemma_tagged(name, z);
    lemma_no_end_mark(z);
    let next = s.line(first);
    assert(next == TaggedView { pending: Some((name, z)), ..s }) by {
        reveal(TaggedView::line);
    }
    let w = lemma_pending(next, name, z, rest);
    assert((TaggedView { pending: None, ..next }) =~= s);
    w
}

/// A written entry is read as its value: exactly, where the value stands on one line.
proof fn lemma_entry(s: TaggedView, n: nat, name: Seq<char>, v: Seq<char>) -> (w: Seq<char>)
    requires
        s.pending is None,
        basic(name),
        !name.contains('\n'),
        !name.contains(']'),
    ensures
        step(s, entry(n, name, v)) == s.value(name, w),
        !v.contains('\n') ==> w == kept_1252(escaped(v)),
{
    reveal_strlit("[");
    reveal_strlit("]");
    reveal_strlit("[end]");
    let e = escaped(v);
    let mark = "[end]"@;
    let head = tag_head(name);
    lemma_escaped(v);
    lemma_kept_indented(n, head + e + mark);
    assert(basic(head) && basic(mark));
    lemma_kept_concat(head + e, mark);
    lemma_kept_concat(head, e);
    lemma_kept_basic(head);
    lemma_kept_basic(mark);
    let k = kept_1252(e);
    lemma_kept(e, '[');
    if !v.contains('\n') {
        lemma_kept(e, '\n');
    }
    if k.contains('\n') {
        lemma_entry_lines(s, n, name, k)
    } else {
        lemma_entry_line(s, n, name, k);
        k
    }
}

/// A text of one line in characters that Windows-1252 has, without those that mark tags.
pub open spec fn unadorned(s: Seq<char>) -> bool {
    &&& kept_1252(s) == s
    &&& !s.contains('\n')
    &&& !s.contains('&')
    &&& !s.contains('[')
    &&& !s.contains(']')
}

proof fn lemma_unadorned(s: Seq<char>)
    requires
        unadorned(s),
    ensures
        kept_1252(escaped(s)) == s,
        resolved(trim(s)) == trim(s),
{
    lemma_escaped(s);
    lemma_trim_subset(s, '&');
    lemma_trim_subset(trim_start(s), '&');
}

/// A written price is read as the price cut off behind its places.
pub proof fn law_price_returns(d: Dec, places: nat)
    requires
        places > 0,
        d.cut(places).fits(),
    ensures
        comma_number(price_text(d, places)) == Some(d.cut(places)),
        unadorned(price_text(d, places)),
        trim(price_text(d, places)) == price_text(d, places),
{
    reveal_strlit(".");
    reveal_strlit(",");
    reveal_strlit("");
    let whole = d.whole_digits();
    let fraction = d.fixed_fraction(places);
    let sign = d.sign();
    let front = sign + whole;
    crate::gaeb90_export::lemma_price_digits(d, places);
    assert(d.abs().whole_digits() == whole);
    assert(d.abs().fraction_digits() == d.fraction_digits());
    assert(d.abs().fixed_fraction(places) =~= fraction);
    lemma_digits(magnitude(d.mantissa) / pow10(d.scale));
    assert forall|i: int| 0 <= i < whole.len() implies is_digit(#[trigger] whole[i]) by {}
    assert forall|i: int| 0 <= i < fraction.len() implies is_digit(#[trigger] fraction[i]) by {}
    let fixed = d.fixed(places);
    assert(fixed =~= front + "."@ + fraction);
    assert forall|i: int| 0 <= i < front.len() implies front[i] != '.' && front[i] != ',' by {
        if i >= sign.len() {
            assert(is_digit(whole[i - sign.len()]));
        }
    }
    assert forall|i: int| 0 <= i < fraction.len() implies fraction[i] != '.' && fraction[i] != ','
        by {
        assert(is_digit(fraction[i]));
    }
    let written = price_text(d, places);
    lemma_replace_char_concat(front + "."@, fraction, "."@, ","@);
    lemma_replace_char_concat(front, "."@, "."@, ","@);
    lemma_replace_absent(front, "."@, ","@);
    lemma_replace_absent(fraction, "."@, ","@);
    assert(replace("."@, "."@, ","@) =~= ","@) by {
        assert("."@.subrange(0, 1) =~= "."@);
        assert("."@.skip(1) =~= Seq::<char>::empty());
        assert(replace("."@.skip(1), "."@, ","@) =~= Seq::<char>::empty());
    }
    assert(written =~= front + ","@ + fraction);
    assert forall|i: int| 0 <= i < written.len() implies written[i] <= '\u{7f}' && written[i] != '.'
        && written[i] != '\n' && written[i] != '&' && written[i] != '[' && written[i] != ']' by {
        if i < sign.len() {
        } else if i < front.len() {
            assert(is_digit(whole[i - sign.len()]));
        } else if i > front.len() {
            assert(is_digit(fraction[i - front.len() - 1]));
        }
    }
    assert(basic(written));
    lemma_kept_basic(written);
    assert(written[0] == front[0]);
    assert(is_digit(whole[0]));
    assert(is_digit(fraction[fraction.len() - 1]));
    assert(written.last() == fraction[fraction.len() - 1]);
    assert(trim(written) == written);
    lemma_replace_absent(written, "."@, ""@);
    lemma_replace_char_concat(front + ","@, fraction, ","@, "."@);
    lemma_replace_char_concat(front, ","@, ","@, "."@);
    lemma_replace_absent(front, ","@, "."@);
    lemma_replace_absent(fraction, ","@, "."@);
    assert(replace(","@, ","@, "."@) =~= "."@) by {
        assert(","@.subrange(0, 1) =~= ","@);
        assert(","@.skip(1) =~= Seq::<char>::empty());
        assert(replace(","@.skip(1), ","@, "."@) =~= Seq::<char>::empty());
    }
    let s = replace(written, ","@, "."@);
    assert(s =~= fixed);
    lemma_price_value(d, places);
    let negative = s[0] == '-';
    assert(negative == (d.mantissa < 0));
    let body = if negative {
        s.skip(1)
    } else {
        s
    };
    assert(body =~= whole + seq!['.'] + fraction);
    assert forall|i: int| 0 <= i < whole.len() implies body[i] != '.' by {
        assert(is_digit(whole[i]));
    }
    lemma_position_of(body, '.', whole.len() as int);
    assert(body.take(whole.len() as int) =~= whole);
    assert(body.skip(whole.len() as int + 1) =~= fraction);
    assert(crate::gaeb90_export::price_digits(d, places) == whole + fraction);
    let size = digits_value(whole + fraction) as int;
    assert(size == magnitude(d.cut(places).mantissa));
    crate::decimal::lemma_pow10_positive(d.scale);
    assert(magnitude(d.mantissa) * pow10(places) / pow10(d.scale) >= 0) by (nonlinear_arith)
        requires
            pow10(d.scale) > 0,
            pow10(places) >= 0,
            magnitude(d.mantissa) >= 0,
    ;
    assert(d.cut(places).mantissa == if negative {
        -size
    } else {
        size
    });
    assert(all_digits(whole) && all_digits(fraction));
    assert(crate::decimal::numeral(s) == Some(d.cut(places)));
}

/// A name of a block that holds neither items nor levels.
pub open spec fn calm(name: Seq<char>) -> bool {
    &&& name != "Position"@
    &&& name != "ZuschlPosition"@
    &&& name != "LVGlied"@
    &&& name != "LVBereich"@
}

pub open spec fn all_calm(sections: Seq<Seq<char>>) -> bool {
    forall|i: int| 0 <= i < sections.len() ==> calm(#[trigger] sections[i])
}

/// The state in the lines in front of the rows.
spec fn on_way(
    s: TaggedView,
    sections: Seq<Seq<char>>,
    lengths: Seq<nat>,
    phase: Seq<char>,
) -> bool {
    &&& s.sections == sections
    &&& s.lengths == lengths
    &&& s.item is None
    &&& s.pending is None
    &&& s.document.rows.len() == 0
    &&& s.document.exchange_phase == phase
}

proof fn lemma_way_begin(
    s: TaggedView,
    n: nat,
    whole: Seq<char>,
    name: Seq<char>,
    sections: Seq<Seq<char>>,
    lengths: Seq<nat>,
    phase: Seq<char>,
)
    requires
        on_way(s, sections, lengths, phase),
        whole == "#begin["@ + name + "]"@,
        basic(name),
        !name.contains('\n'),
        calm(name),
    ensures
        on_way(step(s, indented(n, whole)), sections.push(name), lengths, phase),
{
    lemma_begin(s, n, whole, name);
}

proof fn lemma_way_end(
    s: TaggedView,
    n: nat,
    whole: Seq<char>,
    name: Seq<char>,
    sections: Seq<Seq<char>>,
    lengths: Seq<nat>,
    phase: Seq<char>,
)
    requires
        on_way(s, sections.push(name), lengths, phase),
        whole == "#end["@ + name + "]"@,
        basic(name),
        !name.contains('\n'),
        calm(name),
    ensures
        on_way(step(s, indented(n, whole)), sections, lengths, phase),
{
    lemma_end(s, n, whole, name);
    assert(sections.push(name).take(sections.len() as int) =~= sections);
}

/// An entry that is no phase leaves the way alone.
proof fn lemma_way_entry(
    s: TaggedView,
    n: nat,
    name: Seq<char>,
    v: Seq<char>,
    sections: Seq<Seq<char>>,
    lengths: Seq<nat>,
    phase: Seq<char>,
)
    requires
        on_way(s, sections, lengths, phase),
        all_calm(sections),
        basic(name),
        !name.contains('\n'),
        !name.contains(']'),
        name != "DP"@,
    ensures
        on_way(step(s, entry(n, name, v)), sections, lengths, phase),
{
    let w = lemma_entry(s, n, name, v);
    reveal(TaggedView::value);
    assert(!sections.contains("Position"@));
    assert(!sections.contains("LVGlied"@));
}

proof fn lemma_way_phase(
    s: TaggedView,
    n: nat,
    sections: Seq<Seq<char>>,
    lengths: Seq<nat>,
    phase: Seq<char>,
)
    requires
        on_way(s, sections, lengths, phase),
    ensures
        on_way(step(s, entry(n, "DP"@, "84"@)), sections, lengths, "84"@),
{
    reveal_strlit("DP");
    reveal_strlit("84");
    let w = lemma_entry(s, n, "DP"@, "84"@);
    assert(basic("84"@));
    lemma_kept_basic("84"@);
    lemma_unadorned("84"@);
    assert(trim("84"@) == "84"@);
    reveal(TaggedView::value);
}

proof fn lemma_names()
    ensures
        calm("GAEB"@) && basic("GAEB"@) && !"GAEB"@.contains('\n'),
        calm("GAEBInfo"@) && basic("GAEBInfo"@) && !"GAEBInfo"@.contains('\n'),
        calm("Vergabe"@) && basic("Vergabe"@) && !"Vergabe"@.contains('\n'),
        calm("VergabeInfo"@) && basic("VergabeInfo"@) && !"VergabeInfo"@.contains('\n'),
        calm("AG"@) && basic("AG"@) && !"AG"@.contains('\n'),
        calm("AN"@) && basic("AN"@) && !"AN"@.contains('\n'),
        calm("LV"@) && basic("LV"@) && !"LV"@.contains('\n'),
        calm("LVInfo"@) && basic("LVInfo"@) && !"LVInfo"@.contains('\n'),
        "#begin[GAEB]"@ == "#begin["@ + "GAEB"@ + "]"@,
        "#end[GAEB]"@ == "#end["@ + "GAEB"@ + "]"@,
        "#begin[GAEBInfo]"@ == "#begin["@ + "GAEBInfo"@ + "]"@,
        "#end[GAEBInfo]"@ == "#end["@ + "GAEBInfo"@ + "]"@,
        "#begin[Vergabe]"@ == "#begin["@ + "Vergabe"@ + "]"@,
        "#end[Vergabe]"@ == "#end["@ + "Vergabe"@ + "]"@,
        "#begin[VergabeInfo]"@ == "#begin["@ + "VergabeInfo"@ + "]"@,
        "#end[VergabeInfo]"@ == "#end["@ + "VergabeInfo"@ + "]"@,
        "#begin[AG]"@ == "#begin["@ + "AG"@ + "]"@,
        "#end[AG]"@ == "#end["@ + "AG"@ + "]"@,
        "#begin[AN]"@ == "#begin["@ + "AN"@ + "]"@,
        "#end[AN]"@ == "#end["@ + "AN"@ + "]"@,
        "#begin[LV]"@ == "#begin["@ + "LV"@ + "]"@,
        "#end[LV]"@ == "#end["@ + "LV"@ + "]"@,
        "#begin[LVInfo]"@ == "#begin["@ + "LVInfo"@ + "]"@,
        "#end[LVInfo]"@ == "#end["@ + "LVInfo"@ + "]"@,
{
    reveal_strlit("Position");
    reveal_strlit("ZuschlPosition");
    reveal_strlit("LVGlied");
    reveal_strlit("LVBereich");
    reveal_strlit("#begin[");
    reveal_strlit("#end[");
    reveal_strlit("]");
    reveal_strlit("GAEB");
    reveal_strlit("#begin[GAEB]");
    reveal_strlit("#end[GAEB]");
    reveal_strlit("GAEBInfo");
    reveal_strlit("#begin[GAEBInfo]");
    reveal_strlit("#end[GAEBInfo]");
    reveal_strlit("Vergabe");
    reveal_strlit("#begin[Vergabe]");
    reveal_strlit("#end[Vergabe]");
    reveal_strlit("VergabeInfo");
    reveal_strlit("#begin[VergabeInfo]");
    reveal_strlit("#end[VergabeInfo]");
    reveal_strlit("AG");
    reveal_strlit("#begin[AG]");
    reveal_strlit("#end[AG]");
    reveal_strlit("AN");
    reveal_strlit("#begin[AN]");
    reveal_strlit("#end[AN]");
    reveal_strlit("LV");
    reveal_strlit("#begin[LV]");
    reveal_strlit("#end[LV]");
    reveal_strlit("LVInfo");
    reveal_strlit("#begin[LVInfo]");
    reveal_strlit("#end[LVInfo]");
    assert("#begin[GAEB]"@ =~= "#begin["@ + "GAEB"@ + "]"@);
    assert("#end[GAEB]"@ =~= "#end["@ + "GAEB"@ + "]"@);
    assert("GAEBInfo"@[0] != "Position"@[0]);
    assert("#begin[GAEBInfo]"@ =~= "#begin["@ + "GAEBInfo"@ + "]"@);
    assert("#end[GAEBInfo]"@ =~= "#end["@ + "GAEBInfo"@ + "]"@);
    assert("Vergabe"@[0] != "LVGlied"@[0]);
    assert("#begin[Vergabe]"@ =~= "#begin["@ + "Vergabe"@ + "]"@);
    assert("#end[Vergabe]"@ =~= "#end["@ + "Vergabe"@ + "]"@);
    assert("#begin[VergabeInfo]"@ =~= "#begin["@ + "VergabeInfo"@ + "]"@);
    assert("#end[VergabeInfo]"@ =~= "#end["@ + "VergabeInfo"@ + "]"@);
    assert("#begin[AG]"@ =~= "#begin["@ + "AG"@ + "]"@);
    assert("#end[AG]"@ =~= "#end["@ + "AG"@ + "]"@);
    assert("#begin[AN]"@ =~= "#begin["@ + "AN"@ + "]"@);
    assert("#end[AN]"@ =~= "#end["@ + "AN"@ + "]"@);
    assert("#begin[LV]"@ =~= "#begin["@ + "LV"@ + "]"@);
    assert("#end[LV]"@ =~= "#end["@ + "LV"@ + "]"@);
    assert("#begin[LVInfo]"@ =~= "#begin["@ + "LVInfo"@ + "]"@);
    assert("#end[LVInfo]"@ =~= "#end["@ + "LVInfo"@ + "]"@);
}

spec fn is_letter(c: char) -> bool {
    'A' <= c <= 'Z' || 'a' <= c <= 'z'
}

/// A name that tags an entry, other than that of the phase.
spec fn tag_name(name: Seq<char>) -> bool {
    basic(name) && !name.contains('\n') && !name.contains(']') && name != "DP"@
}

proof fn lemma_tags()
    ensures
        tag_name("Version"@),
        tag_name("VersMon"@),
        tag_name("VersJahr"@),
        tag_name("Datum"@),
        tag_name("Uhrzeit"@),
        tag_name("ProgSystem"@),
        tag_name("ProgName"@),
        tag_name("Zeichensatz"@),
        tag_name("Wae"@),
        tag_name("WaeBez"@),
        tag_name("Name"@),
        tag_name("Bez"@),
        tag_name("KurzLang"@),
{
    reveal_strlit("DP");
    assert("DP"@.len() == 2);
    assert(tag_name("Version"@)) by {
        reveal_strlit("Version");
        assert("Version"@.len() == 7);
        assert forall|i: int| 0 <= i < 7 implies is_letter(#[trigger] "Version"@[i]) by {}
    }
    assert(tag_name("VersMon"@)) by {
        reveal_strlit("VersMon");
        assert("VersMon"@.len() == 7);
        assert forall|i: int| 0 <= i < 7 implies is_letter(#[trigger] "VersMon"@[i]) by {}
    }
    assert(tag_name("VersJahr"@)) by {
        reveal_strlit("VersJahr");
        assert("VersJahr"@.len() == 8);
        assert forall|i: int| 0 <= i < 8 implies is_letter(#[trigger] "VersJahr"@[i]) by {}
    }
    assert(tag_name("Datum"@)) by {
        reveal_strlit("Datum");
        assert("Datum"@.len() == 5);
        assert forall|i: int| 0 <= i < 5 implies is_letter(#[trigger] "Datum"@[i]) by {}
    }
    assert(tag_name("Uhrzeit"@)) by {
        reveal_strlit("Uhrzeit");
        assert("Uhrzeit"@.len() == 7);
        assert forall|i: int| 0 <= i < 7 implies is_letter(#[trigger] "Uhrzeit"@[i]) by {}
    }
    assert(tag_name("ProgSystem"@)) by {
        reveal_strlit("ProgSystem");
        assert("ProgSystem"@.len() == 10);
        assert forall|i: int| 0 <= i < 10 implies is_letter(#[trigger] "ProgSystem"@[i]) by {}
    }
    assert(tag_name("ProgName"@)) by {
        reveal_strlit("ProgName");
        assert("ProgName"@.len() == 8);
        assert forall|i: int| 0 <= i < 8 implies is_letter(#[trigger] "ProgName"@[i]) by {}
    }
    assert(tag_name("Zeichensatz"@)) by {
        reveal_strlit("Zeichensatz");
        assert("Zeichensatz"@.len() == 11);
        assert forall|i: int| 0 <= i < 11 implies is_letter(#[trigger] "Zeichensatz"@[i]) by {}
    }
    assert(tag_name("Wae"@)) by {
        reveal_strlit("Wae");
        assert("Wae"@.len() == 3);
        assert forall|i: int| 0 <= i < 3 implies is_letter(#[trigger] "Wae"@[i]) by {}
    }
    assert(tag_name("WaeBez"@)) by {
        reveal_strlit("WaeBez");
        assert("WaeBez"@.len() == 6);
        assert forall|i: int| 0 <= i < 6 implies is_letter(#[trigger] "WaeBez"@[i]) by {}
    }
    assert(tag_name("Name"@)) by {
        reveal_strlit("Name");
        assert("Name"@.len() == 4);
        assert forall|i: int| 0 <= i < 4 implies is_letter(#[trigger] "Name"@[i]) by {}
    }
    assert(tag_name("Bez"@)) by {
        reveal_strlit("Bez");
        assert("Bez"@.len() == 3);
        assert forall|i: int| 0 <= i < 3 implies is_letter(#[trigger] "Bez"@[i]) by {}
    }
    assert(tag_name("KurzLang"@)) by {
        reveal_strlit("KurzLang");
        assert("KurzLang"@.len() == 8);
        assert forall|i: int| 0 <= i < 8 implies is_letter(#[trigger] "KurzLang"@[i]) by {}
    }
}

proof fn lemma_opening_first(document: DocumentView, moment: MomentView, source: Seq<char>)
    ensures
        on_way(
            steps(fresh(source), opening_lines(document, moment), 11),
            seq!["GAEB"@],
            Seq::empty(),
            Seq::<char>::empty(),
        ),
{
    lemma_names();
    lemma_tags();
    let l = opening_lines(document, moment);
    let f = fresh(source);
    let s = steps(f, l, 0);
    assert(l[0] == indented(0, "#begin[GAEB]"@));
    lemma_way_begin(s, 0, "#begin[GAEB]"@, "GAEB"@, Seq::<Seq<char>>::empty(), Seq::empty(), Seq::<char>::empty());
    assert(Seq::<Seq<char>>::empty().push("GAEB"@) =~= seq!["GAEB"@]);
    let s = steps(f, l, 1);
    assert(l[1] == indented(1, "#begin[GAEBInfo]"@));
    lemma_way_begin(s, 1, "#begin[GAEBInfo]"@, "GAEBInfo"@, seq!["GAEB"@], Seq::empty(), Seq::<char>::empty());
    assert(seq!["GAEB"@].push("GAEBInfo"@) =~= seq!["GAEB"@, "GAEBInfo"@]);
    let s = steps(f, l, 2);
    assert(l[2] == entry(2, "Version"@, "1.2"@));
    lemma_way_entry(s, 2, "Version"@, "1.2"@, seq!["GAEB"@, "GAEBInfo"@], Seq::empty(), Seq::<char>::empty());
    let s = steps(f, l, 3);
    assert(l[3] == entry(2, "VersMon"@, "3"@));
    lemma_way_entry(s, 2, "VersMon"@, "3"@, seq!["GAEB"@, "GAEBInfo"@], Seq::empty(), Seq::<char>::empty());
    let s = steps(f, l, 4);
    assert(l[4] == entry(2, "VersJahr"@, "2002"@));
    lemma_way_entry(s, 2, "VersJahr"@, "2002"@, seq!["GAEB"@, "GAEBInfo"@], Seq::empty(), Seq::<char>::empty());
    let s = steps(f, l, 5);
    assert(l[5] == entry(2, "Datum"@, moment.long_date()));
    lemma_way_entry(s, 2, "Datum"@, moment.long_date(), seq!["GAEB"@, "GAEBInfo"@], Seq::empty(), Seq::<char>::empty());
    let s = steps(f, l, 6);
    assert(l[6] == entry(2, "Uhrzeit"@, moment.short_time()));
    lemma_way_entry(s, 2, "Uhrzeit"@, moment.short_time(), seq!["GAEB"@, "GAEBInfo"@], Seq::empty(), Seq::<char>::empty());
    let s = steps(f, l, 7);
    assert(l[7] == entry(2, "ProgSystem"@, CONVERTER_NAME@));
    lemma_way_entry(s, 2, "ProgSystem"@, CONVERTER_NAME@, seq!["GAEB"@, "GAEBInfo"@], Seq::empty(), Seq::<char>::empty());
    let s = steps(f, l, 8);
    assert(l[8] == entry(2, "ProgName"@, CONVERTER_NAME@));
    lemma_way_entry(s, 2, "ProgName"@, CONVERTER_NAME@, seq!["GAEB"@, "GAEBInfo"@], Seq::empty(), Seq::<char>::empty());
    let s = steps(f, l, 9);
    assert(l[9] == entry(2, "Zeichensatz"@, "ANSI"@));
    lemma_way_entry(s, 2, "Zeichensatz"@, "ANSI"@, seq!["GAEB"@, "GAEBInfo"@], Seq::empty(), Seq::<char>::empty());
    let s = steps(f, l, 10);
    assert(l[10] == indented(1, "#end[GAEBInfo]"@));
    assert(seq!["GAEB"@].push("GAEBInfo"@) =~= seq!["GAEB"@, "GAEBInfo"@]);
    lemma_way_end(s, 1, "#end[GAEBInfo]"@, "GAEBInfo"@, seq!["GAEB"@], Seq::empty(), Seq::<char>::empty());
}

proof fn lemma_opening_second(document: DocumentView, moment: MomentView, source: Seq<char>)
    ensures
        on_way(
            steps(fresh(source), opening_lines(document, moment), 17),
            seq!["GAEB"@, "Vergabe"@],
            Seq::empty(),
            "84"@,
        ),
{
    lemma_opening_first(document, moment, source);
    lemma_names();
    lemma_tags();
    let l = opening_lines(document, moment);
    let f = fresh(source);
    let currency = or_else(document.currency, "EUR"@);
    let s = steps(f, l, 11);
    assert(l[11] == indented(1, "#begin[Vergabe]"@));
    lemma_way_begin(s, 1, "#begin[Vergabe]"@, "Vergabe"@, seq!["GAEB"@], Seq::empty(), Seq::<char>::empty());
    assert(seq!["GAEB"@].push("Vergabe"@) =~= seq!["GAEB"@, "Vergabe"@]);
    let s = steps(f, l, 12);
    assert(l[12] == entry(2, "DP"@, "84"@));
    lemma_way_phase(s, 2, seq!["GAEB"@, "Vergabe"@], Seq::empty(), Seq::<char>::empty());
    let s = steps(f, l, 13);
    assert(l[13] == indented(2, "#begin[VergabeInfo]"@));
    lemma_way_begin(s, 2, "#begin[VergabeInfo]"@, "VergabeInfo"@, seq!["GAEB"@, "Vergabe"@], Seq::empty(), "84"@);
    assert(seq!["GAEB"@, "Vergabe"@].push("VergabeInfo"@) =~= seq!["GAEB"@, "Vergabe"@, "VergabeInfo"@]);
    let s = steps(f, l, 14);
    assert(l[14] == entry(3, "Wae"@, currency));
    lemma_way_entry(s, 3, "Wae"@, currency, seq!["GAEB"@, "Vergabe"@, "VergabeInfo"@], Seq::empty(), "84"@);
    let s = steps(f, l, 15);
    assert(l[15] == entry(3, "WaeBez"@, currency));
    lemma_way_entry(s, 3, "WaeBez"@, currency, seq!["GAEB"@, "Vergabe"@, "VergabeInfo"@], Seq::empty(), "84"@);
    let s = steps(f, l, 16);
    assert(l[16] == indented(2, "#end[VergabeInfo]"@));
    assert(seq!["GAEB"@, "Vergabe"@].push("VergabeInfo"@) =~= seq!["GAEB"@, "Vergabe"@, "VergabeInfo"@]);
    lemma_way_end(s, 2, "#end[VergabeInfo]"@, "VergabeInfo"@, seq!["GAEB"@, "Vergabe"@], Seq::empty(), "84"@);
}

proof fn lemma_opening_third(document: DocumentView, moment: MomentView, source: Seq<char>)
    ensures
        on_way(
            steps(fresh(source), opening_lines(document, moment), 23),
            seq!["GAEB"@, "Vergabe"@, "LV"@, "LVInfo"@],
            Seq::empty(),
            "84"@,
        ),
{
    lemma_opening_second(document, moment, source);
    lemma_names();
    lemma_tags();
    let l = opening_lines(document, moment);
    let f = fresh(source);
    let s = steps(f, l, 17);
    assert(l[17] == indented(2, "#begin[AG]"@));
    lemma_way_begin(s, 2, "#begin[AG]"@, "AG"@, seq!["GAEB"@, "Vergabe"@], Seq::empty(), "84"@);
    assert(seq!["GAEB"@, "Vergabe"@].push("AG"@) =~= seq!["GAEB"@, "Vergabe"@, "AG"@]);
    let s = steps(f, l, 18);
    assert(l[18] == indented(2, "#end[AG]"@));
    assert(seq!["GAEB"@, "Vergabe"@].push("AG"@) =~= seq!["GAEB"@, "Vergabe"@, "AG"@]);
    lemma_way_end(s, 2, "#end[AG]"@, "AG"@, seq!["GAEB"@, "Vergabe"@], Seq::empty(), "84"@);
    let s = steps(f, l, 19);
    assert(l[19] == indented(2, "#begin[AN]"@));
    lemma_way_begin(s, 2, "#begin[AN]"@, "AN"@, seq!["GAEB"@, "Vergabe"@], Seq::empty(), "84"@);
    assert(seq!["GAEB"@, "Vergabe"@].push("AN"@) =~= seq!["GAEB"@, "Vergabe"@, "AN"@]);
    let s = steps(f, l, 20);
    assert(l[20] == indented(2, "#end[AN]"@));
    assert(seq!["GAEB"@, "Vergabe"@].push("AN"@) =~= seq!["GAEB"@, "Vergabe"@, "AN"@]);
    lemma_way_end(s, 2, "#end[AN]"@, "AN"@, seq!["GAEB"@, "Vergabe"@], Seq::empty(), "84"@);
    let s = steps(f, l, 21);
    assert(l[21] == indented(2, "#begin[LV]"@));
    lemma_way_begin(s, 2, "#begin[LV]"@, "LV"@, seq!["GAEB"@, "Vergabe"@], Seq::empty(), "84"@);
    assert(seq!["GAEB"@, "Vergabe"@].push("LV"@) =~= seq!["GAEB"@, "Vergabe"@, "LV"@]);
    let s = steps(f, l, 22);
    assert(l[22] == indented(3, "#begin[LVInfo]"@));
    lemma_way_begin(s, 3, "#begin[LVInfo]"@, "LVInfo"@, seq!["GAEB"@, "Vergabe"@, "LV"@], Seq::empty(), "84"@);
    assert(seq!["GAEB"@, "Vergabe"@, "LV"@].push("LVInfo"@) =~= seq!["GAEB"@, "Vergabe"@, "LV"@, "LVInfo"@]);
}

proof fn lemma_opening_fourth(document: DocumentView, moment: MomentView, source: Seq<char>)
    ensures
        on_way(
            steps(fresh(source), opening_lines(document, moment), 27),
            seq!["GAEB"@, "Vergabe"@, "LV"@, "LVInfo"@],
            Seq::empty(),
            "84"@,
        ),
{
    lemma_opening_third(document, moment, source);
    lemma_names();
    lemma_tags();
    let l = opening_lines(document, moment);
    let f = fresh(source);
    let s = steps(f, l, 23);
    assert(l[23] == entry(4, "Name"@, or_else(document.boq, "Leistungsverzeichnis"@)));
    lemma_way_entry(s, 4, "Name"@, or_else(document.boq, "Leistungsverzeichnis"@), seq!["GAEB"@, "Vergabe"@, "LV"@, "LVInfo"@], Seq::empty(), "84"@);
    let s = steps(f, l, 24);
    assert(l[24] == entry(4, "Bez"@, or_else(document.project, document.boq)));
    lemma_way_entry(s, 4, "Bez"@, or_else(document.project, document.boq), seq!["GAEB"@, "Vergabe"@, "LV"@, "LVInfo"@], Seq::empty(), "84"@);
    let s = steps(f, l, 25);
    assert(l[25] == entry(4, "Datum"@, moment.long_date()));
    lemma_way_entry(s, 4, "Datum"@, moment.long_date(), seq!["GAEB"@, "Vergabe"@, "LV"@, "LVInfo"@], Seq::empty(), "84"@);
    let s = steps(f, l, 26);
    assert(l[26] == entry(4, "KurzLang"@, "1"@));
    lemma_way_entry(s, 4, "KurzLang"@, "1"@, seq!["GAEB"@, "Vergabe"@, "LV"@, "LVInfo"@], Seq::empty(), "84"@);
}

proof fn lemma_outer_tags()
    ensures
        "Typ"@ != "DP"@ && "Typ"@ != "Wae"@ && "Typ"@ != "Name"@,
        "Laenge"@ != "DP"@ && "Laenge"@ != "Wae"@ && "Laenge"@ != "Name"@ && "Laenge"@ != "Typ"@,
        "OZ"@ != "DP"@ && "OZ"@ != "Wae"@ && "OZ"@ != "Name"@ && "OZ"@ != "Typ"@ && "OZ"@
            != "Laenge"@,
        "Bez"@ != "DP"@ && "Bez"@ != "Wae"@ && "Bez"@ != "Name"@ && "Bez"@ != "Typ"@ && "Bez"@
            != "Laenge"@ && "Bez"@ != "OZ"@,
        basic("Typ"@) && basic("Laenge"@) && basic("OZ"@) && basic("Bez"@),
        !"Typ"@.contains('\n') && !"Typ"@.contains(']'),
        !"Laenge"@.contains('\n') && !"Laenge"@.contains(']'),
        !"OZ"@.contains('\n') && !"OZ"@.contains(']'),
        !"Bez"@.contains('\n') && !"Bez"@.contains(']'),
{
    reveal_strlit("DP");
    reveal_strlit("Wae");
    reveal_strlit("Name");
    reveal_strlit("Typ");
    reveal_strlit("Laenge");
    reveal_strlit("OZ");
    reveal_strlit("Bez");
    assert("Typ"@[0] == 'T' && "Wae"@[0] == 'W' && "OZ"@[0] == 'O' && "DP"@[0] == 'D' && "Bez"@[0]
        == 'B');
    assert("Laenge"@.len() == 6 && "Name"@.len() == 4 && "Bez"@.len() == 3 && "OZ"@.len() == 2);
}

proof fn lemma_blocks()
    ensures
        "#begin[LVGlied]"@ == "#begin["@ + "LVGlied"@ + "]"@,
        "#end[LVGlied]"@ == "#end["@ + "LVGlied"@ + "]"@,
        "#begin[LVBereich]"@ == "#begin["@ + "LVBereich"@ + "]"@,
        "#end[LVBereich]"@ == "#end["@ + "LVBereich"@ + "]"@,
        "#begin[Position]"@ == "#begin["@ + "Position"@ + "]"@,
        "#end[Position]"@ == "#end["@ + "Position"@ + "]"@,
        basic("LVGlied"@) && !"LVGlied"@.contains('\n'),
        basic("LVBereich"@) && !"LVBereich"@.contains('\n'),
        basic("Position"@) && !"Position"@.contains('\n'),
        "LVBereich"@ != "Position"@ && "LVBereich"@ != "LVGlied"@ && "LVGlied"@ != "Position"@,
        "ZuschlPosition"@ != "Position"@ && "ZuschlPosition"@ != "LVBereich"@,
{
    reveal_strlit("#begin[");
    reveal_strlit("#end[");
    reveal_strlit("]");
    reveal_strlit("LVGlied");
    reveal_strlit("LVBereich");
    reveal_strlit("Position");
    reveal_strlit("ZuschlPosition");
    reveal_strlit("#begin[LVGlied]");
    reveal_strlit("#end[LVGlied]");
    reveal_strlit("#begin[LVBereich]");
    reveal_strlit("#end[LVBereich]");
    reveal_strlit("#begin[Position]");
    reveal_strlit("#end[Position]");
    assert("#begin[LVGlied]"@ =~= "#begin["@ + "LVGlied"@ + "]"@);
    assert("#end[LVGlied]"@ =~= "#end["@ + "LVGlied"@ + "]"@);
    assert("#begin[LVBereich]"@ =~= "#begin["@ + "LVBereich"@ + "]"@);
    assert("#end[LVBereich]"@ =~= "#end["@ + "LVBereich"@ + "]"@);
    assert("#begin[Position]"@ =~= "#begin["@ + "Position"@ + "]"@);
    assert("#end[Position]"@ =~= "#end["@ + "Position"@ + "]"@);
    assert("LVGlied"@.len() == 7 && "LVBereich"@.len() == 9 && "Position"@.len() == 8);
    assert("ZuschlPosition"@.len() == 14);
}

proof fn lemma_digits_unadorned(n: nat)
    ensures
        unadorned(digits(n)),
        trim(digits(n)) == digits(n),
        n <= usize::MAX ==> size_in(digits(n)) == Some(n),
{
    lemma_digits(n);
    let d = digits(n);
    assert forall|i: int| 0 <= i < d.len() implies #[trigger] d[i] <= '\u{7f}' && d[i] != '\n'
        && d[i] != '&' && d[i] != '[' && d[i] != ']' by {
        assert(is_digit(d[i]));
    }
    lemma_kept_basic(d);
    assert(is_digit(d[0]) && is_digit(d[d.len() - 1]));
}

/// The lines on a level make its length known.
proof fn lemma_level(
    s: TaggedView,
    kind: Seq<char>,
    n: nat,
    sections: Seq<Seq<char>>,
    lengths: Seq<nat>,
    phase: Seq<char>,
)
    requires
        on_way(s, sections, lengths, phase),
        all_calm(sections),
        kind == "LVStufe"@ || kind == "Position"@,
        n <= usize::MAX,
    ensures
        on_way(steps(s, level_lines(kind, n), 4), sections, lengths.push(n), phase),
{
    lemma_blocks();
    lemma_outer_tags();
    let l = level_lines(kind, n);
    reveal_strlit("LVStufe");
    reveal_strlit("Position");
    assert(basic(kind));
    lemma_kept_basic(kind);
    assert(unadorned(kind));
    lemma_unadorned(kind);
    assert(trim(kind) == kind);
    lemma_digits_unadorned(n);
    lemma_unadorned(digits(n));
    let inside = sections.push("LVGlied"@);
    assert(!sections.contains("Position"@));
    assert(!inside.contains("Position"@)) by {
        assert forall|i: int| 0 <= i < inside.len() implies inside[i] != "Position"@ by {
            if i < sections.len() {
                assert(calm(sections[i]));
            }
        }
    }
    assert(inside[sections.len() as int] == "LVGlied"@);
    assert(inside.contains("LVGlied"@));
    assert(steps(s, l, 0) == s);
    assert(l[0] == indented(4, "#begin[LVGlied]"@));
    lemma_begin(s, 4, "#begin[LVGlied]"@, "LVGlied"@);
    let s1 = steps(s, l, 1);
    assert(s1 == s.begun("LVGlied"@));
    assert(l[1] == entry(5, "Typ"@, kind));
    let w = lemma_entry(s1, 5, "Typ"@, kind);
    let s2 = steps(s, l, 2);
    assert(s2 == s1.value("Typ"@, kind));
    assert(s2 == TaggedView { level_type: kind, ..s1 }) by {
        reveal(TaggedView::value);
    }
    assert(l[2] == entry(5, "Laenge"@, digits(n)));
    let w = lemma_entry(s2, 5, "Laenge"@, digits(n));
    let s3 = steps(s, l, 3);
    assert(s3 == s2.value("Laenge"@, digits(n)));
    assert(s3 == TaggedView { level_length: Some(n), ..s2 }) by {
        reveal(TaggedView::value);
    }
    assert(l[3] == indented(4, "#end[LVGlied]"@));
    lemma_end(s3, 4, "#end[LVGlied]"@, "LVGlied"@);
    assert(inside.take(sections.len() as int) =~= sections);
}

proof fn lemma_levels(
    s: TaggedView,
    all: Seq<nat>,
    n: nat,
    sections: Seq<Seq<char>>,
    phase: Seq<char>,
)
    requires
        on_way(s, sections, Seq::empty(), phase),
        all_calm(sections),
        n <= all.len(),
        forall|i: int| 0 <= i < all.len() ==> #[trigger] all[i] <= usize::MAX,
    ensures
        on_way(
            steps(s, levels_lines(all, n), levels_lines(all, n).len()),
            sections,
            all.take(n as int),
            phase,
        ),
    decreases n,
{
    if n == 0 {
        assert(all.take(0) =~= Seq::<nat>::empty());
    } else {
        let m = (n - 1) as nat;
        lemma_levels(s, all, m, sections, phase);
        let front = levels_lines(all, m);
        let back = level_lines("LVStufe"@, all[n - 1]);
        lemma_steps_concat(s, front, back, 4);
        assert(levels_lines(all, n).len() == front.len() + 4);
        lemma_level(
            steps(s, front, front.len()),
            "LVStufe"@,
            all[n - 1],
            sections,
            all.take(m as int),
            phase,
        );
        assert(all.take(n as int) =~= all.take(m as int).push(all[n - 1]));
    }
}

proof fn lemma_undotted_chars(oz: Seq<char>, f: spec_fn(char) -> bool)
    requires
        forall|i: int| 0 <= i < oz.len() ==> f(#[trigger] oz[i]),
    ensures
        forall|i: int| 0 <= i < undotted(oz).len() ==> f(#[trigger] undotted(oz)[i]),
    decreases oz.len(),
{
    let n = position_of(oz, '.') as int;
    lemma_position_of_found(oz, '.');
    let p = split(oz, '.');
    lemma_join_skip(p, 0);
    assert(p.skip(0) =~= p);
    if n < oz.len() {
        let rest = oz.skip(n + 1);
        lemma_undotted_chars(rest, f);
        assert(p.skip(1) =~= split(rest, '.'));
        assert(undotted(oz) == oz.take(n) + undotted(rest));
        assert forall|i: int| 0 <= i < undotted(oz).len() implies f(#[trigger] undotted(oz)[i]) by {
            if i < n {
                assert(undotted(oz)[i] == oz[i]);
            } else {
                assert(undotted(oz)[i] == undotted(rest)[i - n]);
            }
        }
    } else {
        assert(p.skip(1) =~= Seq::<Seq<char>>::empty());
        assert(undotted(oz) =~= oz);
    }
}

proof fn lemma_undotted_unadorned(oz: Seq<char>)
    requires
        unadorned(oz),
    ensures
        unadorned(undotted(oz)),
{
    let f = |c: char|
        windows_1252_char(windows_1252_byte(c)) == c && c != '\n' && c != '&' && c != '[' && c
            != ']';
    assert forall|i: int| 0 <= i < oz.len() implies f(#[trigger] oz[i]) by {
        assert(oz.contains(oz[i]));
        assert(kept_1252(oz)[i] == oz[i]);
    }
    lemma_undotted_chars(oz, f);
    let u = undotted(oz);
    assert forall|i: int| 0 <= i < u.len() implies kept_1252(u)[i] == u[i] by {
        assert(f(u[i]));
    }
    assert(kept_1252(u) =~= u);
    assert forall|i: int| 0 <= i < u.len() implies u[i] != '\n' && u[i] != '&' && u[i] != '['
        && u[i] != ']' by {
        assert(f(u[i]));
    }
}

/// The lengths of all levels of an offer, that of the items last.
pub open spec fn p84_lengths(rows: Seq<RowView>) -> Seq<nat> {
    level_lengths(rows).push(or_one(longest_last(rows)))
}

/// What an item of a P84 is read as.
pub open spec fn priced(item: ItemView) -> ItemView {
    ItemView {
        oz: item.oz,
        unit_price: Some(item.unit_price->0.cut(3)),
        total_price: Some(item.total_price->0.cut(2)),
        ..empty_item()
    }
}

/// What a row of a P84 is read as: an item with its ordinal number and its prices, a
/// heading on the level that it stands on, with its ordinal number and its title where
/// the file can hold them.
pub open spec fn read_back(rows: Seq<RowView>, i: int, read: RowView) -> bool {
    match rows[i] {
        RowView::Item(item) => read == RowView::Item(priced(item)),
        RowView::Category { oz, title, level: _ } => match read {
            RowView::Category { oz: read_oz, title: read_title, level } => {
                &&& unadorned(oz) && regular(oz, p84_lengths(rows)) ==> read_oz == oz
                &&& unadorned(title) ==> read_title == trim(title)
                &&& level == open_until(rows, (i + 1) as nat)
            },
            RowView::Item(_) => false,
        },
    }
}

/// An item that a P84 can hold whole.
pub open spec fn holdable(item: ItemView, lengths: Seq<nat>) -> bool {
    &&& unadorned(item.oz)
    &&& regular(item.oz, lengths)
    &&& item.unit_price matches Some(ep) && ep.cut(3).fits()
    &&& item.total_price matches Some(gb) && gb.cut(2).fits()
}

spec fn row_sections(open: nat) -> Seq<Seq<char>> {
    seq!["GAEB"@, "Vergabe"@, "LV"@] + Seq::new(open, |i: int| "LVBereich"@)
}

proof fn lemma_row_sections(open: nat)
    ensures
        row_sections(open).len() == open + 3,
        row_sections(open).push("LVBereich"@) == row_sections(open + 1),
        open > 0 ==> row_sections(open).last() == "LVBereich"@,
        open > 0 ==> row_sections(open).take(open as int + 2) == row_sections((open - 1) as nat),
        !row_sections(open).contains("Position"@),
        !row_sections(open).contains("ZuschlPosition"@),
        depth(row_sections(open)) == open,
    decreases open,
{
    lemma_names();
    lemma_blocks();
    let s = row_sections(open);
    assert(s.push("LVBereich"@) =~= row_sections(open + 1));
    assert forall|i: int| 0 <= i < s.len() implies s[i] != "Position"@ && s[i] != "ZuschlPosition"@
        by {
        if i < 3 {
            assert(s[i] == seq!["GAEB"@, "Vergabe"@, "LV"@][i]);
        }
    }
    if open > 0 {
        assert(s.take(open as int + 2) =~= row_sections((open - 1) as nat));
        assert(s.drop_last() =~= row_sections((open - 1) as nat));
        lemma_row_sections((open - 1) as nat);
    } else {
        let three = seq!["GAEB"@, "Vergabe"@, "LV"@];
        assert(s =~= three);
        assert(three.drop_last() =~= seq!["GAEB"@, "Vergabe"@]);
        assert(seq!["GAEB"@, "Vergabe"@].drop_last() =~= seq!["GAEB"@]);
        assert(seq!["GAEB"@].drop_last() =~= Seq::<Seq<char>>::empty());
        reveal_with_fuel(depth, 4);
    }
}

/// The state among the rows.
spec fn in_rows(s: TaggedView, open: nat, rows: Seq<RowView>, n: nat) -> bool {
    &&& s.sections == row_sections(open)
    &&& s.lengths == p84_lengths(rows)
    &&& s.item is None
    &&& s.pending is None
    &&& s.document.exchange_phase == "84"@
    &&& s.document.rows.len() == n
    &&& forall|i: int| 0 <= i < n ==> read_back(rows, i, #[trigger] s.document.rows[i])
}

proof fn lemma_closing(s: TaggedView, open: nat, level: nat, rows: Seq<RowView>, n: nat)
    requires
        in_rows(s, open, rows, n),
    ensures
        in_rows(
            steps(s, closing_lines(open, level), closing_lines(open, level).len()),
            left_open(open, level),
            rows,
            n,
        ),
    decreases open,
{
    if open >= level && open > 0 {
        let first = seq![indented(2 + open, "#end[LVBereich]"@)];
        let rest = closing_lines((open - 1) as nat, level);
        lemma_blocks();
        lemma_row_sections(open);
        lemma_end(s, 2 + open, "#end[LVBereich]"@, "LVBereich"@);
        assert(steps(s, first, 0) == s);
        let next = steps(s, first, 1);
        assert(next == s.ended("LVBereich"@));
        assert(last_open(s.sections, "LVBereich"@) == Some((open + 2) as nat));
        assert(in_rows(next, (open - 1) as nat, rows, n));
        lemma_closing(next, (open - 1) as nat, level, rows, n);
        lemma_steps_concat(s, first, rest, rest.len());
    }
}

proof fn lemma_item_tags()
    ensures
        "EP"@ != "DP"@ && "EP"@ != "OZ"@ && "EP"@ != "Kurztext"@ && "EP"@ != "Langtext"@ && "EP"@
            != "ME"@ && "EP"@ != "Menge"@,
        "GB"@ != "DP"@ && "GB"@ != "OZ"@ && "GB"@ != "Kurztext"@ && "GB"@ != "Langtext"@ && "GB"@
            != "ME"@ && "GB"@ != "Menge"@ && "GB"@ != "EP"@,
        basic("EP"@) && !"EP"@.contains('\n') && !"EP"@.contains(']'),
        basic("GB"@) && !"GB"@.contains('\n') && !"GB"@.contains(']'),
{
    reveal_strlit("EP");
    reveal_strlit("GB");
    reveal_strlit("DP");
    reveal_strlit("OZ");
    reveal_strlit("ME");
    reveal_strlit("Menge");
    reveal_strlit("Kurztext");
    reveal_strlit("Langtext");
    assert("EP"@[0] == 'E' && "GB"@[0] == 'G' && "DP"@[0] == 'D' && "OZ"@[0] == 'O' && "ME"@[0]
        == 'M');
    assert("Menge"@.len() == 5 && "Kurztext"@.len() == 8 && "Langtext"@.len() == 8);
}

/// The lines of an item are read as the item.
proof fn lemma_item_read(s: TaggedView, open: nat, rows: Seq<RowView>, n: nat)
    requires
        n < rows.len(),
        in_rows(s, open, rows, n),
        rows[n as int] is Item,
        holdable(rows[n as int]->Item_0, p84_lengths(rows)),
    ensures
        in_rows(steps(s, row_lines(rows[n as int], open), 5), open, rows, n + 1),
{
    let item = rows[n as int]->Item_0;
    let ep = item.unit_price->0;
    let gb = item.total_price->0;
    let lengths = p84_lengths(rows);
    let l = item_lines(item.oz, ep, gb, open);
    assert(l == row_lines(rows[n as int], open));
    let u = undotted(item.oz);
    lemma_blocks();
    lemma_outer_tags();
    lemma_item_tags();
    lemma_row_sections(open);
    lemma_undotted_unadorned(item.oz);
    lemma_unadorned(u);
    law_dots_return(item.oz, lengths);
    law_price_returns(ep, 3);
    law_price_returns(gb, 2);
    lemma_unadorned(price_text(ep, 3));
    lemma_unadorned(price_text(gb, 2));
    let inside = row_sections(open).push("Position"@);
    assert(inside[open as int + 3] == "Position"@);
    assert(inside.contains("Position"@));
    assert(!inside.contains("ZuschlPosition"@)) by {
        assert forall|i: int| 0 <= i < inside.len() implies inside[i] != "ZuschlPosition"@ by {
            if i < open + 3 {
                assert(row_sections(open).contains(row_sections(open)[i]));
            }
        }
    }
    assert(steps(s, l, 0) == s);
    assert(l[0] == indented(3 + open, "#begin[Position]"@));
    lemma_begin(s, 3 + open, "#begin[Position]"@, "Position"@);
    let s1 = steps(s, l, 1);
    assert(s1 == s.begun("Position"@));
    assert(s1 == TaggedView { item: Some(empty_item()), sections: inside, ..s });
    assert(l[1] == entry(4 + open, "OZ"@, u));
    let w = lemma_entry(s1, 4 + open, "OZ"@, u);
    let s2 = steps(s, l, 2);
    let i2 = ItemView { oz: item.oz, ..empty_item() };
    assert(s2 == TaggedView { item: Some(i2), ..s1 }) by {
        reveal(TaggedView::value);
    }
    assert(l[2] == entry(4 + open, "EP"@, price_text(ep, 3)));
    let w = lemma_entry(s2, 4 + open, "EP"@, price_text(ep, 3));
    let s3 = steps(s, l, 3);
    let i3 = ItemView { unit_price: Some(ep.cut(3)), ..i2 };
    assert(s3 == TaggedView { item: Some(i3), ..s2 }) by {
        reveal(TaggedView::value);
    }
    assert(l[3] == entry(4 + open, "GB"@, price_text(gb, 2)));
    let w = lemma_entry(s3, 4 + open, "GB"@, price_text(gb, 2));
    let s4 = steps(s, l, 4);
    let i4 = ItemView { total_price: Some(gb.cut(2)), ..i3 };
    assert(s4 == TaggedView { item: Some(i4), ..s3 }) by {
        reveal(TaggedView::value);
    }
    assert(l[4] == indented(3 + open, "#end[Position]"@));
    lemma_end(s4, 3 + open, "#end[Position]"@, "Position"@);
    let s5 = steps(s, l, 5);
    assert(s5 == s4.ended("Position"@));
    assert(inside.take(open as int + 3) =~= row_sections(open));
    assert(item.oz.len() > 0) by {
        lemma_join_skip(split(item.oz, '.'), 0);
        crate::outline::lemma_split_len(item.oz, '.');
        assert(split(item.oz, '.')[0].len() > 0);
        assert(u.len() > 0);
        if item.oz.len() == 0 {
            assert(split(item.oz, '.') =~= seq![item.oz]);
        }
    }
    let after = s5.document.rows;
    assert(after == s.document.rows.push(RowView::Item(i4)));
    assert forall|i: int| 0 <= i < n + 1 implies read_back(rows, i, #[trigger] after[i]) by {
        if i < n {
            assert(after[i] == s.document.rows[i]);
        } else {
            assert(i4 == priced(item));
        }
    }
}

/// The lines of a heading, once those that it ends are closed.
proof fn lemma_heading_read(s: TaggedView, left: nat, rows: Seq<RowView>, n: nat)
    requires
        n < rows.len(),
        in_rows(s, left, rows, n),
        rows[n as int] is Category,
        open_until(rows, n + 1) == left + 1,
    ensures
        ({
            let oz = rows[n as int]->oz;
            let title = rows[n as int]->title;
            in_rows(
                steps(
                    s,
                    seq![
                        indented(3 + left, "#begin[LVBereich]"@),
                        entry(4 + left, "OZ"@, undotted(oz)),
                        entry(4 + left, "Bez"@, title),
                    ],
                    3,
                ),
                left + 1,
                rows,
                n + 1,
            )
        }),
{
    let oz = rows[n as int]->oz;
    let title = rows[n as int]->title;
    let lengths = p84_lengths(rows);
    let u = undotted(oz);
    let l = seq![
        indented(3 + left, "#begin[LVBereich]"@),
        entry(4 + left, "OZ"@, u),
        entry(4 + left, "Bez"@, title),
    ];
    lemma_blocks();
    lemma_outer_tags();
    lemma_row_sections(left);
    lemma_row_sections(left + 1);
    assert(steps(s, l, 0) == s);
    assert(l[0] == indented(3 + left, "#begin[LVBereich]"@));
    lemma_begin(s, 3 + left, "#begin[LVBereich]"@, "LVBereich"@);
    let s1 = steps(s, l, 1);
    assert(s1 == TaggedView { sections: row_sections(left + 1), ..s });
    assert(l[1] == entry(4 + left, "OZ"@, u));
    let w = lemma_entry(s1, 4 + left, "OZ"@, u);
    let s2 = steps(s, l, 2);
    let read_oz = dotted(trim(resolved(trim(w))), lengths);
    let bare = RowView::Category { oz: read_oz, title: seq![], level: left + 1 };
    assert(s2.sections == s1.sections && s2.lengths == lengths && s2.item is None && s2.pending is None
        && s2.document.exchange_phase == "84"@ && s2.document.rows == s.document.rows.push(bare)
        && s2.category == Some(n)) by {
        reveal(TaggedView::value);
    }
    if unadorned(oz) && regular(oz, lengths) {
        lemma_undotted_unadorned(oz);
        lemma_unadorned(u);
        law_dots_return(oz, lengths);
        assert(read_oz == oz);
    }
    assert(l[2] == entry(4 + left, "Bez"@, title));
    let v = lemma_entry(s2, 4 + left, "Bez"@, title);
    let s3 = steps(s, l, 3);
    assert(s3 == s2.value("Bez"@, v));
    let read_title = trim(resolved(trim(v)));
    let full = RowView::Category { oz: read_oz, title: read_title, level: left + 1 };
    assert(title_at(s2.document.rows, s2.category) is Some);
    assert(s3.sections == s1.sections && s3.lengths == lengths && s3.item is None && s3.pending is None
        && s3.document.exchange_phase == "84"@ && s3.document.rows == s2.document.rows.update(
        n as int,
        full,
    )) by {
        reveal(TaggedView::value);
    }
    if unadorned(title) {
        lemma_unadorned(title);
        law_trim_once(title);
        assert(read_title == trim(title));
    }
    let after = s3.document.rows;
    assert forall|i: int| 0 <= i < n + 1 implies read_back(rows, i, #[trigger] after[i]) by {
        if i < n {
            assert(after[i] == s.document.rows[i]);
        }
    }
}

proof fn lemma_row_read(s: TaggedView, rows: Seq<RowView>, n: nat)
    requires
        n < rows.len(),
        in_rows(s, open_until(rows, n), rows, n),
        rows[n as int] is Item ==> holdable(rows[n as int]->Item_0, p84_lengths(rows)),
    ensures
        ({
            let open = open_until(rows, n);
            let l = row_lines(rows[n as int], open);
            in_rows(steps(s, l, l.len()), open_until(rows, n + 1), rows, n + 1)
        }),
{
    let open = open_until(rows, n);
    match rows[n as int] {
        RowView::Item(item) => {
            lemma_item_read(s, open, rows, n);
        },
        RowView::Category { oz, title, level } => {
            let front = closing_lines(open, level);
            let left = left_open(open, level);
            let back = seq![
                indented(3 + left, "#begin[LVBereich]"@),
                entry(4 + left, "OZ"@, undotted(oz)),
                entry(4 + left, "Bez"@, title),
            ];
            lemma_closing(s, open, level, rows, n);
            lemma_heading_read(steps(s, front, front.len()), left, rows, n);
            lemma_steps_concat(s, front, back, 3);
        },
    }
}

proof fn lemma_rows_read(s: TaggedView, rows: Seq<RowView>, n: nat)
    requires
        n <= rows.len(),
        in_rows(s, 0, rows, 0),
        forall|i: int|
            0 <= i < rows.len() && #[trigger] rows[i] is Item ==> holdable(
                rows[i]->Item_0,
                p84_lengths(rows),
            ),
    ensures
        in_rows(
            steps(s, rows_lines(rows, n), rows_lines(rows, n).len()),
            open_until(rows, n),
            rows,
            n,
        ),
    decreases n,
{
    if n > 0 {
        let m = (n - 1) as nat;
        lemma_rows_read(s, rows, m);
        let front = rows_lines(rows, m);
        let back = row_lines(rows[n - 1], open_until(rows, m));
        lemma_row_read(steps(s, front, front.len()), rows, m);
        lemma_steps_concat(s, front, back, back.len());
    }
}

proof fn lemma_left_none(open: nat)
    ensures
        left_open(open, 1) == 0,
    decreases open,
{
    if open > 0 {
        lemma_left_none((open - 1) as nat);
    }
}

/// The lines in front of the rows lead to the rows.
proof fn lemma_head_read(document: DocumentView, moment: MomentView, source: Seq<char>)
    requires
        forall|i: int|
            0 <= i < p84_lengths(document.rows).len() ==> #[trigger] p84_lengths(document.rows)[i]
                <= usize::MAX,
    ensures
        ({
            let rows = document.rows;
            let lengths = level_lengths(rows);
            let head = opening_lines(document, moment) + levels_lines(lengths, lengths.len())
                + level_lines("Position"@, or_one(longest_last(rows))) + seq![
                indented(3, "#end[LVInfo]"@),
            ];
            in_rows(steps(fresh(source), head, head.len()), 0, rows, 0)
        }),
{
    let rows = document.rows;
    let lengths = level_lengths(rows);
    let last = or_one(longest_last(rows));
    let all = p84_lengths(rows);
    assert(all[lengths.len() as int] == last);
    assert forall|i: int| 0 <= i < lengths.len() implies #[trigger] lengths[i] <= usize::MAX by {
        assert(all[i] == lengths[i]);
    }
    let f = fresh(source);
    let a = opening_lines(document, moment);
    let b = levels_lines(lengths, lengths.len());
    let c = level_lines("Position"@, last);
    let d = seq![indented(3, "#end[LVInfo]"@)];
    let sections = seq!["GAEB"@, "Vergabe"@, "LV"@, "LVInfo"@];
    lemma_names();
    assert(all_calm(sections));
    lemma_opening_fourth(document, moment, source);
    assert(a.len() == 27);
    let s1 = steps(f, a, a.len());
    lemma_levels(s1, lengths, lengths.len(), sections, "84"@);
    assert(lengths.take(lengths.len() as int) =~= lengths);
    lemma_steps_concat(f, a, b, b.len());
    let s2 = steps(f, a + b, (a + b).len());
    lemma_level(s2, "Position"@, last, sections, lengths, "84"@);
    assert(c.len() == 4);
    lemma_steps_concat(f, a + b, c, 4);
    let s3 = steps(f, a + b + c, (a + b + c).len());
    let outer = seq!["GAEB"@, "Vergabe"@, "LV"@];
    assert(outer.push("LVInfo"@) =~= sections);
    lemma_way_end(s3, 3, "#end[LVInfo]"@, "LVInfo"@, outer, all, "84"@);
    assert(steps(s3, d, 0) == s3);
    assert(steps(s3, d, 1) == step(s3, d[0]));
    lemma_steps_concat(f, a + b + c, d, 1);
    assert(row_sections(0) =~= outer);
}

proof fn lemma_items_priced(rows: Seq<RowView>, lengths: Seq<nat>)
    requires
        forall|i: int|
            0 <= i < rows.len() && #[trigger] rows[i] is Item ==> holdable(rows[i]->Item_0, lengths),
    ensures
        fully_priced(items_of(rows)),
        items_of(rows).len() > 0 ==> has_item(rows),
    decreases rows.len(),
{
    if rows.len() > 0 {
        let front = rows.drop_last();
        assert forall|i: int| 0 <= i < front.len() && #[trigger] front[i] is Item implies holdable(
            front[i]->Item_0,
            lengths,
        ) by {
            assert(front[i] == rows[i]);
        }
        lemma_items_priced(front, lengths);
        assert(rows.last() == rows[rows.len() - 1]);
        if has_item(front) {
            let i = choose|i: int| 0 <= i < front.len() && #[trigger] front[i] is Item;
            assert(rows[i] is Item);
        }
        match rows.last() {
            RowView::Item(item) => {
                let all = items_of(rows);
                assert forall|i: int| 0 <= i < all.len() implies (#[trigger] all[i]).unit_price is Some
                    && all[i].total_price is Some by {
                    if i < all.len() - 1 {
                        assert(all[i] == items_of(front)[i]);
                    }
                }
            },
            RowView::Category { .. } => {},
        }
    }
}

spec fn tail_lines() -> Seq<Seq<char>> {
    seq![
        indented(2, "#end[LV]"@),
        indented(1, "#end[Vergabe]"@),
        indented(0, "#end[GAEB]"@),
    ]
}

proof fn lemma_tail_read(s: TaggedView, rows: Seq<RowView>)
    requires
        in_rows(s, 0, rows, rows.len()),
    ensures
        steps(s, tail_lines(), 3).document == s.document,
        steps(s, tail_lines(), 3).item is None,
{
    lemma_names();
    let tail = tail_lines();
    assert(steps(s, tail, 0) == s);
    lemma_end(s, 2, "#end[LV]"@, "LV"@);
    let s4 = steps(s, tail, 1);
    assert(s4 == s.ended("LV"@));
    lemma_end(s4, 1, "#end[Vergabe]"@, "Vergabe"@);
    let s5 = steps(s, tail, 2);
    assert(s5 == s4.ended("Vergabe"@));
    lemma_end(s5, 0, "#end[GAEB]"@, "GAEB"@);
    assert(steps(s, tail, 3) == s5.ended("GAEB"@));
}

/// All lines of an offer lead to its rows.
proof fn lemma_file_read(document: DocumentView, moment: MomentView, source: Seq<char>)
    requires
        forall|i: int|
            0 <= i < document.rows.len() && #[trigger] document.rows[i] is Item ==> holdable(
                document.rows[i]->Item_0,
                p84_lengths(document.rows),
            ),
        forall|i: int|
            0 <= i < p84_lengths(document.rows).len() ==> #[trigger] p84_lengths(document.rows)[i]
                <= usize::MAX,
    ensures
        ({
            let all = p84_lines(document, moment);
            let s = steps(fresh(source), all, all.len());
            &&& s.item is None
            &&& s.document.exchange_phase == "84"@
            &&& s.document.rows.len() == document.rows.len()
            &&& forall|i: int|
                0 <= i < document.rows.len() ==> read_back(
                    document.rows,
                    i,
                    #[trigger] s.document.rows[i],
                )
        }),
{
    let rows = document.rows;
    let f = fresh(source);
    let lengths = level_lengths(rows);
    let head = opening_lines(document, moment) + levels_lines(lengths, lengths.len()) + level_lines(
        "Position"@,
        or_one(longest_last(rows)),
    ) + seq![indented(3, "#end[LVInfo]"@)];
    let body = rows_lines(rows, rows.len());
    let open = open_until(rows, rows.len());
    let closing = closing_lines(open, 1);
    let tail = tail_lines();
    lemma_head_read(document, moment, source);
    lemma_rows_read(steps(f, head, head.len()), rows, rows.len());
    lemma_steps_concat(f, head, body, body.len());
    let front = head + body;
    lemma_closing(steps(f, front, front.len()), open, 1, rows, rows.len());
    lemma_left_none(open);
    lemma_steps_concat(f, front, closing, closing.len());
    let most = front + closing;
    lemma_tail_read(steps(f, most, most.len()), rows);
    lemma_steps_concat(f, most, tail, 3);
    assert(p84_lines(document, moment) == most + tail);
}

/// A P84 that was written is read as an offer with the same rows in the same order:
/// every item comes back with its ordinal number, its unit price cut off behind three
/// places and its total cut off behind two.
pub proof fn law_p84_reads_back(document: DocumentView, moment: MomentView, source: Seq<char>)
    requires
        items_of(document.rows).len() > 0,
        forall|i: int|
            0 <= i < document.rows.len() && #[trigger] document.rows[i] is Item ==> holdable(
                document.rows[i]->Item_0,
                p84_lengths(document.rows),
            ),
        forall|i: int|
            0 <= i < p84_lengths(document.rows).len() ==> #[trigger] p84_lengths(document.rows)[i]
                <= usize::MAX,
    ensures
        p84(document, moment) is Ok,
        ({
            let read = gaeb_2000(source, windows_1252_text(p84(document, moment)->Ok_0));
            &&& read is Ok
            &&& read->Ok_0.exchange_phase == "84"@
            &&& read->Ok_0.rows.len() == document.rows.len()
            &&& forall|i: int|
                0 <= i < document.rows.len() ==> read_back(
                    document.rows,
                    i,
                    #[trigger] read->Ok_0.rows[i],
                )
        }),
{
    let rows = document.rows;
    let f = fresh(source);
    lemma_items_priced(rows, p84_lengths(rows));
    lemma_file_read(document, moment, source);
    let all = p84_lines(document, moment);
    let s = steps(f, all, all.len());
    let text = windows_1252_text(p84(document, moment)->Ok_0);
    let found = lines(text);
    lemma_steps(f, all, all.len());
    assert(all.take(all.len() as int) =~= all);
    lemma_run_all(found, found.len(), source);
    assert(found.take(found.len() as int) =~= found);
    assert(lines_read(found, found.len(), source) == s);
    assert(all.len() > 0 && all[0] == indented(0, "#begin[GAEB]"@)) by {
        let a = opening_lines(document, moment);
        assert(a.len() > 0);
        assert(all[0] == a[0]);
    }
    lemma_first_line(all);
    assert(s.closed() == s);
    let i = choose|i: int| 0 <= i < rows.len() && #[trigger] rows[i] is Item;
    assert(read_back(rows, i, s.document.rows[i]));
    assert(s.document.rows[i] is Item);
    reveal_strlit("84");
    reveal_strlit("81");
    reveal_strlit("83");
}

proof fn lemma_first_line(all: Seq<Seq<char>>)
    requires
        all.len() > 0,
        all[0] == indented(0, "#begin[GAEB]"@),
    ensures
        lines(kept_1252(with_line_ends(all))).len() > 0,
        trim(lines(kept_1252(with_line_ends(all)))[0]) == "#begin[GAEB]"@,
    decreases all.len(),
{
    reveal_strlit("#begin[GAEB]");
    reveal_strlit("\r\n");
    let whole = "#begin[GAEB]"@;
    let end = seq!['\r', '\n'];
    assert("\r\n"@ =~= end);
    let front = all.drop_last();
    let tail = all.last() + end;
    assert(with_line_ends(all) =~= with_line_ends(front) + tail);
    lemma_kept_concat(with_line_ends(front), tail);
    if all.len() == 1 {
        assert(with_line_ends(front) =~= Seq::<char>::empty());
        assert(indented(0, whole) =~= whole);
        assert(basic(whole + end));
        lemma_kept_basic(whole + end);
        assert(with_line_ends(all) =~= whole + end);
        lemma_lines_single(whole);
        assert(trim(whole) == whole);
    } else {
        lemma_first_line(front);
        assert(with_line_ends(front) =~= with_line_ends(front.drop_last()) + front.last() + end);
        let k = kept_1252(with_line_ends(front));
        lemma_kept_concat(with_line_ends(front.drop_last()) + front.last(), end);
        assert(basic(end));
        lemma_kept_basic(end);
        assert(k.last() == '\n');
        lemma_lines_append(k, kept_1252(tail));
    }
}

} // verus!
