//! What holds of texts, of their lines and words, and of numbers in them.

use vstd::prelude::*;

use crate::gaeb90_laws::lemma_join_front;
use crate::text::{
    ascii_lowercase, digits, find, find_from, integer_in, is_digit, is_space, join, lemma_digits,
    lemma_find_from, lemma_position_of, lemma_word_len, lemma_word_len_bound, lines,
    long_integer_in, pad_left, pad_right, replace, single_spaced, trim, trim_end, trim_start,
    unsigned_in, without_return, word_len, words,
};

verus! {

/// A word: not empty, and without white space.
pub open spec fn is_word(w: Seq<char>) -> bool {
    w.len() > 0 && forall|i: int| 0 <= i < w.len() ==> !is_space(#[trigger] w[i])
}

pub open spec fn all_words(p: Seq<Seq<char>>) -> bool {
    forall|i: int| 0 <= i < p.len() ==> is_word(#[trigger] p[i])
}

/// A text without white space at its ends, whose only white space is single blanks.
pub open spec fn tidy(s: Seq<char>) -> bool {
    &&& s.len() > 0 ==> !is_space(s[0]) && !is_space(s.last())
    &&& forall|i: int|
        0 <= i < s.len() && is_space(#[trigger] s[i]) ==> s[i] == ' ' && !is_space(s[i + 1])
}

proof fn lemma_word_front(s: Seq<char>)
    ensures
        forall|i: int| 0 <= i < word_len(s) ==> !is_space(#[trigger] s[i]),
    decreases s.len(),
{
    if s.len() > 0 && !is_space(s[0]) {
        lemma_word_front(s.skip(1));
        lemma_word_len_bound(s);
        assert forall|i: int| 0 <= i < word_len(s) implies !is_space(#[trigger] s[i]) by {
            if i > 0 {
                assert(s.skip(1)[i - 1] == s[i]);
            }
        }
    }
}

pub proof fn lemma_all_words(s: Seq<char>)
    ensures
        all_words(words(s)),
    decreases s.len(),
{
    if s.len() > 0 && is_space(s[0]) {
        lemma_all_words(s.skip(1));
    } else if s.len() > 0 {
        let n = word_len(s) as int;
        lemma_word_len_bound(s);
        lemma_word_front(s);
        lemma_all_words(s.skip(n));
        let first = s.take(n);
        let rest = words(s.skip(n));
        assert forall|i: int| 0 <= i < words(s).len() implies is_word(#[trigger] words(s)[i]) by {
            if i == 0 {
                assert(words(s)[0] == first);
                assert forall|j: int| 0 <= j < first.len() implies !is_space(#[trigger] first[j]) by {
                    assert(first[j] == s[j]);
                }
            } else {
                assert(words(s)[i] == rest[i - 1]);
            }
        }
    }
}

proof fn lemma_first_word(w: Seq<char>, tail: Seq<char>)
    requires
        is_word(w),
    ensures
        words(w + seq![' '] + tail) == seq![w] + words(tail),
{
    let s = w + seq![' '] + tail;
    let n = w.len() as int;
    assert forall|i: int| 0 <= i < n implies !is_space(s[i]) by {
        assert(s[i] == w[i]);
    }
    assert(s[n] == ' ');
    lemma_word_len(s, n);
    assert(s.take(n) =~= w);
    let behind = s.skip(n);
    assert(behind[0] == ' ');
    assert(behind.skip(1) =~= tail);
    assert(words(behind) == words(tail));
    assert(s[0] == w[0]);
    assert(words(s) == seq![s.take(word_len(s) as int)] + words(s.skip(word_len(s) as int)));
}

proof fn lemma_single_word(w: Seq<char>)
    requires
        is_word(w),
    ensures
        words(w) == seq![w],
        tidy(w),
{
    lemma_word_len(w, w.len() as int);
    assert(w.take(w.len() as int) =~= w);
    let rest = w.skip(w.len() as int);
    assert(rest =~= Seq::<char>::empty());
    assert(words(rest) =~= Seq::<Seq<char>>::empty());
    assert(!is_space(w[0]));
    assert(words(w) =~= seq![w] + words(rest));
    assert(!is_space(w[w.len() - 1]));
}

proof fn lemma_tidy_front(w: Seq<char>, tail: Seq<char>)
    requires
        is_word(w),
        tidy(tail),
        tail.len() > 0,
    ensures
        tidy(w + seq![' '] + tail),
{
    let s = w + seq![' '] + tail;
    let n = w.len() as int;
    assert(s[0] == w[0]);
    assert(s.last() == tail.last());
    assert forall|i: int| 0 <= i < s.len() && is_space(#[trigger] s[i]) implies s[i] == ' '
        && !is_space(s[i + 1]) by {
        if i < n {
            assert(s[i] == w[i]);
        } else if i == n {
            assert(s[i + 1] == tail[0]);
        } else {
            let k = i - n - 1;
            assert(s[i] == tail[k]);
            if k + 1 == tail.len() {
                assert(tail.last() == tail[k]);
            }
            assert(s[i + 1] == tail[k + 1]);
        }
    }
}

pub proof fn lemma_joined_words(p: Seq<Seq<char>>)
    requires
        all_words(p),
    ensures
        words(join(p, " "@)) == p,
        tidy(join(p, " "@)),
        join(p, " "@).len() > 0 <==> p.len() > 0,
    decreases p.len(),
{
    reveal_strlit(" ");
    if p.len() == 0 {
        assert(words(join(p, " "@)) =~= p);
    } else if p.len() == 1 {
        assert(is_word(p[0]));
        lemma_single_word(p[0]);
        assert(p =~= seq![p[0]]);
    } else {
        let w = p[0];
        let rest = p.skip(1);
        assert(is_word(w));
        assert forall|i: int| 0 <= i < rest.len() implies is_word(#[trigger] rest[i]) by {
            assert(rest[i] == p[i + 1]);
        }
        lemma_joined_words(rest);
        lemma_join_front(p, " "@);
        let tail = join(rest, " "@);
        assert(" "@ =~= seq![' ']);
        lemma_first_word(w, tail);
        lemma_tidy_front(w, tail);
        assert(p =~= seq![w] + rest);
    }
}

/// A line with its white space made single blanks has the words that it had, no white
/// space but single blanks between them, and stays as it is when that is done again.
pub proof fn law_single_spaced(s: Seq<char>)
    ensures
        words(single_spaced(s)) == words(s),
        tidy(single_spaced(s)),
        single_spaced(single_spaced(s)) == single_spaced(s),
{
    lemma_all_words(s);
    lemma_joined_words(words(s));
}

/// Blanks, tabs, line ends and the no-break space are white space; letters, digits and the
/// other visible characters of ASCII are not.
pub proof fn law_white_space(c: char)
    ensures
        c == ' ' || c == '\t' || c == '\n' || c == '\r' || c == '\u{a0}' ==> is_space(c),
        '!' <= c <= '~' ==> !is_space(c),
{
}

proof fn lemma_trim_front(a: Seq<char>, s: Seq<char>)
    requires
        forall|i: int| 0 <= i < a.len() ==> is_space(#[trigger] a[i]),
        s.len() == 0 || !is_space(s[0]),
    ensures
        trim_start(a + s) == s,
    decreases a.len(),
{
    if a.len() > 0 {
        let rest = a.skip(1);
        assert forall|i: int| 0 <= i < rest.len() implies is_space(#[trigger] rest[i]) by {
            assert(rest[i] == a[i + 1]);
        }
        assert((a + s)[0] == a[0]);
        assert((a + s).skip(1) =~= rest + s);
        lemma_trim_front(rest, s);
    } else {
        assert(a + s =~= s);
    }
}

proof fn lemma_trim_back(s: Seq<char>, b: Seq<char>)
    requires
        forall|i: int| 0 <= i < b.len() ==> is_space(#[trigger] b[i]),
        s.len() == 0 || !is_space(s.last()),
    ensures
        trim_end(s + b) == s,
    decreases b.len(),
{
    if b.len() > 0 {
        let rest = b.drop_last();
        assert forall|i: int| 0 <= i < rest.len() implies is_space(#[trigger] rest[i]) by {
            assert(rest[i] == b[i]);
        }
        assert((s + b).last() == b[b.len() - 1]);
        assert((s + b).drop_last() =~= s + rest);
        lemma_trim_back(s, rest);
    } else {
        assert(s + b =~= s);
    }
}

/// Trimming takes the white space at both ends and nothing else: of a text that starts and
/// ends with other characters all is left, whatever white space stands around it, and of
/// white space alone nothing.
pub proof fn law_trimmed(a: Seq<char>, s: Seq<char>, b: Seq<char>)
    requires
        forall|i: int| 0 <= i < a.len() ==> is_space(#[trigger] a[i]),
        forall|i: int| 0 <= i < b.len() ==> is_space(#[trigger] b[i]),
        s.len() > 0 ==> !is_space(s[0]) && !is_space(s.last()),
    ensures
        trim(a + s + b) == s,
{
    if s.len() == 0 {
        let all = a + b;
        assert forall|i: int| 0 <= i < all.len() implies is_space(#[trigger] all[i]) by {
            if i < a.len() {
                assert(all[i] == a[i]);
            } else {
                assert(all[i] == b[i - a.len()]);
            }
        }
        lemma_trim_front(all, s);
        assert(all + s =~= a + s + b);
    } else {
        assert((s + b)[0] == s[0]);
        lemma_trim_front(a, s + b);
        assert(a + (s + b) =~= a + s + b);
        lemma_trim_back(s, b);
    }
}

/// A line ends with a line feed, or with a carriage return and a line feed; the last one
/// needs no end, and an end is not followed by an empty line.
pub proof fn law_lines(line: Seq<char>, rest: Seq<char>)
    requires
        !line.contains('\n'),
        line.len() > 0 ==> line.last() != '\r',
    ensures
        lines(line.push('\n') + rest) == seq![line] + lines(rest),
        lines(line.push('\r').push('\n') + rest) == seq![line] + lines(rest),
        line.len() > 0 ==> lines(line) == seq![line],
        lines(line.push('\n')) == seq![line],
{
    let none = Seq::<char>::empty();
    assert(lines(none) =~= Seq::<Seq<char>>::empty());
    lemma_line(line, line, rest);
    lemma_line(line, line, none);
    assert(line.push('\n') + none =~= line.push('\n'));
    assert(seq![line] + lines(none) =~= seq![line]);
    let returned = line.push('\r');
    if returned.contains('\n') {
        let i = choose|i: int| 0 <= i < returned.len() && returned[i] == '\n';
        assert(line[i] == '\n');
    }
    assert(returned.drop_last() =~= line);
    lemma_line(line, returned, rest);
    assert forall|i: int| 0 <= i < line.len() implies line[i] != '\n' by {
        assert(line.contains(line[i]));
    }
    lemma_position_of(line, '\n', line.len() as int);
}

proof fn lemma_line(line: Seq<char>, whole: Seq<char>, rest: Seq<char>)
    requires
        !whole.contains('\n'),
        without_return(whole) == line,
    ensures
        lines(whole.push('\n') + rest) == seq![line] + lines(rest),
{
    let s = whole.push('\n') + rest;
    let n = whole.len() as int;
    assert forall|i: int| 0 <= i < n implies s[i] != '\n' by {
        assert(s[i] == whole[i]);
        assert(whole.contains(whole[i]));
    }
    assert(s[n] == '\n');
    lemma_position_of(s, '\n', n);
    assert(s.take(n) =~= whole);
    assert(s.skip(n + 1) =~= rest);
}

/// What is looked for is found where it stands first; where it is not found it stands
/// nowhere.
pub proof fn law_found_first(s: Seq<char>, pattern: Seq<char>, i: int)
    requires
        0 <= i,
        i + pattern.len() <= s.len(),
        s.subrange(i, i + pattern.len()) == pattern,
    ensures
        find(s, pattern) is Some,
        find(s, pattern)->0 <= i,
        find(s, pattern)->0 + pattern.len() <= s.len(),
        s.subrange(
            find(s, pattern)->0 as int,
            find(s, pattern)->0 as int + pattern.len(),
        ) == pattern,
{
    lemma_found_before(s, pattern, 0, i);
    lemma_find_from(s, pattern, 0);
    let n = find(s, pattern)->0 as int;
    let there = s.skip(n).subrange(0, pattern.len() as int);
    assert(there == pattern);
    assert(there =~= s.subrange(n, n + pattern.len()));
}

proof fn lemma_found_before(s: Seq<char>, pattern: Seq<char>, from: nat, i: int)
    requires
        from <= i,
        i + pattern.len() <= s.len(),
        s.subrange(i, i + pattern.len()) == pattern,
    ensures
        find_from(s, pattern, from) is Some,
        find_from(s, pattern, from)->0 <= i,
    decreases i - from,
{
    if from < i {
        lemma_found_before(s, pattern, from + 1, i);
    } else {
        assert(s.skip(i).subrange(0, pattern.len() as int) =~= pattern);
        assert(pattern.is_prefix_of(s.skip(i)));
    }
}

/// In small letters a text is as long as before; capital letters of ASCII become the small
/// ones, and nothing else changes.
pub proof fn law_small_letters(s: Seq<char>, i: int)
    requires
        0 <= i < s.len(),
    ensures
        ascii_lowercase(s).len() == s.len(),
        'A' <= s[i] <= 'Z' ==> ascii_lowercase(s)[i] as u32 == s[i] as u32 + 32,
        !('A' <= s[i] <= 'Z') ==> ascii_lowercase(s)[i] == s[i],
        ascii_lowercase(ascii_lowercase(s)) == ascii_lowercase(s),
{
    assert(ascii_lowercase(ascii_lowercase(s)) =~= ascii_lowercase(s));
}

/// A number that is written down is read again, with or without a sign in front, as long
/// as it is within the limits.
pub proof fn law_whole_numbers(n: nat, limit: nat)
    ensures
        n <= limit ==> unsigned_in(digits(n), limit) == Some(n),
        n <= limit ==> unsigned_in(seq!['+'] + digits(n), limit) == Some(n),
        n > limit ==> unsigned_in(digits(n), limit) is None,
        n <= 0x7fff_ffff ==> integer_in(digits(n)) == Some(n as int),
        n <= 0x8000_0000 ==> integer_in(seq!['-'] + digits(n)) == Some(-(n as int)),
        n > 0x8000_0000 ==> integer_in(digits(n)) is None && integer_in(seq!['-'] + digits(n)) is None,
        n <= 0x7fff_ffff_ffff_ffff ==> long_integer_in(digits(n)) == Some(n as int),
        n <= 0x8000_0000_0000_0000 ==> long_integer_in(seq!['-'] + digits(n)) == Some(-(n as int)),
{
    lemma_digits(n);
    let d = digits(n);
    assert(is_digit(d[0]));
    assert((seq!['+'] + d).skip(1) =~= d);
    assert((seq!['-'] + d).skip(1) =~= d);
    assert((seq!['+'] + d)[0] == '+');
    assert((seq!['-'] + d)[0] == '-');
}

/// A padded text is as wide as asked for, or as before where it was wider; it ends or
/// starts with the text, and all else is filling.
pub proof fn law_padded(s: Seq<char>, width: nat, fill: char)
    ensures
        ({
            let l = pad_left(s, width, fill);
            let r = pad_right(s, width, fill);
            let gap = if s.len() < width {
                width - s.len()
            } else {
                0
            };
            &&& l.len() == s.len() + gap && r.len() == s.len() + gap
            &&& l.subrange(gap, l.len() as int) == s
            &&& r.subrange(0, s.len() as int) == s
            &&& forall|i: int| 0 <= i < gap ==> #[trigger] l[i] == fill
            &&& forall|i: int| s.len() <= i < r.len() ==> #[trigger] r[i] == fill
        }),
{
    let l = pad_left(s, width, fill);
    let r = pad_right(s, width, fill);
    if s.len() < width {
        assert(l.subrange(width - s.len(), l.len() as int) =~= s);
        assert(r.subrange(0, s.len() as int) =~= s);
    } else {
        assert(l.subrange(0, l.len() as int) =~= s);
        assert(r.subrange(0, s.len() as int) =~= s);
    }
}

/// A character that is replaced by another one is so wherever it stands; all other
/// characters stay where they are.
pub proof fn law_characters_replaced(s: Seq<char>, c: char, d: char)
    ensures
        replace(s, seq![c], seq![d]).len() == s.len(),
        forall|i: int|
            0 <= i < s.len() ==> #[trigger] replace(s, seq![c], seq![d])[i] == if s[i] == c {
                d
            } else {
                s[i]
            },
    decreases s.len(),
{
    if s.len() > 0 {
        let rest = s.skip(1);
        law_characters_replaced(rest, c, d);
        let r = replace(s, seq![c], seq![d]);
        assert(s[0] == c <==> seq![c].is_prefix_of(s)) by {
            if s[0] == c {
                assert(s.subrange(0, 1) =~= seq![c]);
            }
            if seq![c].is_prefix_of(s) {
                assert(s.subrange(0, 1)[0] == c);
            }
        }
        assert forall|i: int| 0 <= i < s.len() implies #[trigger] r[i] == if s[i] == c {
            d
        } else {
            s[i]
        } by {
            if i > 0 {
                assert(r[i] == replace(rest, seq![c], seq![d])[i - 1]);
                assert(rest[i - 1] == s[i]);
            }
        }
    }
}

} // verus!
