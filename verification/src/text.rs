//! Text as sequences of characters: the vocabulary in which every other
//! module of the library states what it reads and writes.

use vstd::prelude::*;

verus! {

/// `String::push` appends one character at the end.
pub assume_specification[ String::push ](s: &mut String, c: char)
    ensures
        final(s)@ == old(s)@.push(c),
;

/// `std::str::from_utf8` gives the text of bytes that are valid UTF-8, and nothing
/// for any others.
#[verifier::external_body]
pub(crate) fn utf8_text(bytes: &[u8]) -> (r: Option<String>)
    ensures
        (match r {
            Some(s) => vstd::utf8::valid_utf8(bytes@) && s@ == vstd::utf8::decode_utf8(bytes@),
            None => !vstd::utf8::valid_utf8(bytes@),
        }),
{
    std::str::from_utf8(bytes).ok().map(|s| s.to_owned())
}

/// What `String::from_utf8_lossy` makes of bytes.
pub uninterp spec fn lossy_text(bytes: Seq<u8>) -> Seq<char>;

/// `String::from_utf8_lossy` gives the text of valid UTF-8; of any other bytes, a text
/// that depends on them alone.
#[verifier::external_body]
pub(crate) fn lossy(bytes: &[u8]) -> (r: String)
    ensures
        r@ == lossy_text(bytes@),
        vstd::utf8::valid_utf8(bytes@) ==> r@ == vstd::utf8::decode_utf8(bytes@),
{
    String::from_utf8_lossy(bytes).into_owned()
}

/// The text of bytes: of valid UTF-8 what it says, of others what is left of it.
pub open spec fn readable(bytes: Seq<u8>) -> Seq<char> {
    if vstd::utf8::valid_utf8(bytes) {
        vstd::utf8::decode_utf8(bytes)
    } else {
        lossy_text(bytes)
    }
}

/// The texts of a sequence of strings.
pub open spec fn texts(v: Seq<String>) -> Seq<Seq<char>> {
    Seq::new(v.len(), |i: int| v[i]@)
}

pub broadcast proof fn lemma_texts_push(v: Seq<String>, s: String)
    ensures
        #[trigger] texts(v.push(s)) == texts(v).push(s@),
{
    assert(texts(v.push(s)) =~= texts(v).push(s@));
}

/// The characters of a text.
pub fn chars(s: &str) -> (r: Vec<char>)
    ensures
        r@ == s@,
{
    let mut r: Vec<char> = Vec::new();
    for c in it: s.chars()
        invariant
            it.seq() == s@,
            r@ == s@.take(it.index() as int),
    {
        assert(s@.take(it.index() as int + 1) =~= s@.take(it.index() as int).push(c));
        r.push(c);
    }
    assert(s@.take(s@.len() as int) =~= s@);
    r
}

/// The text between two character positions.
pub fn slice(v: &[char], from: usize, to: usize) -> (r: String)
    requires
        from <= to <= v@.len(),
    ensures
        r@ == v@.subrange(from as int, to as int),
{
    let mut r = String::new();
    let mut i: usize = from;
    while i < to
        invariant
            from <= i <= to <= v@.len(),
            r@ == v@.subrange(from as int, i as int),
        decreases to - i,
    {
        assert(v@.subrange(from as int, i + 1) =~= v@.subrange(from as int, i as int).push(v@[i as int]));
        r.push(v[i]);
        i = i + 1;
    }
    r
}

/// The text of a sequence of characters.
pub fn text(v: &[char]) -> (r: String)
    ensures
        r@ == v@,
{
    let r = slice(v, 0, v.len());
    assert(v@.subrange(0, v@.len() as int) =~= v@);
    r
}

/// Whether a character is Unicode white space.
pub open spec fn is_space(c: char) -> bool {
    ||| 0x09 <= c as u32 <= 0x0d
    ||| c as u32 == 0x20
    ||| c as u32 == 0x85
    ||| c as u32 == 0xa0
    ||| c as u32 == 0x1680
    ||| 0x2000 <= c as u32 <= 0x200a
    ||| c as u32 == 0x2028
    ||| c as u32 == 0x2029
    ||| c as u32 == 0x202f
    ||| c as u32 == 0x205f
    ||| c as u32 == 0x3000
}

pub fn space(c: char) -> (r: bool)
    ensures
        r == is_space(c),
{
    let u: u32 = c as u32;
    (u >= 0x09 && u <= 0x0d) || u == 0x20 || u == 0x85 || u == 0xa0 || u == 0x1680
        || (u >= 0x2000 && u <= 0x200a) || u == 0x2028 || u == 0x2029 || u == 0x202f
        || u == 0x205f || u == 0x3000
}

/// Whether a character is one of `0` to `9`.
pub open spec fn is_digit(c: char) -> bool {
    '0' <= c <= '9'
}

pub fn digit(c: char) -> (r: bool)
    ensures
        r == is_digit(c),
{
    c >= '0' && c <= '9'
}

/// Whether every character of a text is one of `0` to `9`.
pub open spec fn all_digits(s: Seq<char>) -> bool {
    forall|i: int| 0 <= i < s.len() ==> is_digit(#[trigger] s[i])
}

/// A text without the white space in front.
pub open spec fn trim_start(s: Seq<char>) -> Seq<char>
    decreases s.len(),
{
    if s.len() > 0 && is_space(s[0]) {
        trim_start(s.skip(1))
    } else {
        s
    }
}

/// A text without the white space at the end.
pub open spec fn trim_end(s: Seq<char>) -> Seq<char>
    decreases s.len(),
{
    if s.len() > 0 && is_space(s.last()) {
        trim_end(s.drop_last())
    } else {
        s
    }
}

/// A text without the white space at both ends.
pub open spec fn trim(s: Seq<char>) -> Seq<char> {
    trim_end(trim_start(s))
}

pub fn trimmed(s: &str) -> (r: String)
    ensures
        r@ == trim(s@),
{
    let v = chars(s);
    let mut from: usize = 0;
    assert(v@.skip(0) =~= v@);
    while from < v.len() && space(v[from])
        invariant
            from <= v@.len(),
            trim_start(v@.skip(from as int)) == trim_start(v@),
        decreases v@.len() - from,
    {
        assert(v@.skip(from as int).skip(1) =~= v@.skip(from as int + 1));
        from = from + 1;
    }
    let mut to: usize = v.len();
    proof {
        assert(v@.subrange(from as int, to as int) =~= v@.skip(from as int));
    }
    while to > from && space(v[to - 1])
        invariant
            from <= to <= v@.len(),
            trim_end(v@.subrange(from as int, to as int)) == trim_end(v@.skip(from as int)),
        decreases to,
    {
        assert(v@.subrange(from as int, to as int).drop_last() =~= v@.subrange(
            from as int,
            to - 1,
        ));
        to = to - 1;
    }
    slice(&v, from, to)
}

pub fn trimmed_end(s: &str) -> (r: String)
    ensures
        r@ == trim_end(s@),
{
    let v = chars(s);
    let mut to: usize = v.len();
    assert(v@.subrange(0, to as int) =~= v@);
    while to > 0 && space(v[to - 1])
        invariant
            to <= v@.len(),
            trim_end(v@.subrange(0, to as int)) == trim_end(v@),
        decreases to,
    {
        assert(v@.subrange(0, to as int).drop_last() =~= v@.subrange(0, to - 1));
        to = to - 1;
    }
    slice(&v, 0, to)
}

/// The position of the first `c` in a text, or its length where there is none.
pub open spec fn position_of(s: Seq<char>, c: char) -> nat
    decreases s.len(),
{
    if s.len() == 0 || s[0] == c {
        0
    } else {
        1 + position_of(s.skip(1), c)
    }
}

pub proof fn lemma_position_of(s: Seq<char>, c: char, n: int)
    requires
        0 <= n <= s.len(),
        forall|i: int| 0 <= i < n ==> s[i] != c,
        n < s.len() ==> s[n] == c,
    ensures
        position_of(s, c) == n,
    decreases s.len(),
{
    if s.len() > 0 && s[0] != c {
        assert forall|i: int| 0 <= i < n - 1 implies s.skip(1)[i] != c by {
            assert(s.skip(1)[i] == s[i + 1]);
        }
        if n < s.len() {
            assert(s.skip(1)[n - 1] == s[n]);
        }
        lemma_position_of(s.skip(1), c, n - 1);
    }
}

pub proof fn lemma_position_of_found(s: Seq<char>, c: char)
    ensures
        position_of(s, c) <= s.len(),
        forall|i: int| 0 <= i < position_of(s, c) ==> s[i] != c,
        position_of(s, c) < s.len() ==> s[position_of(s, c) as int] == c,
    decreases s.len(),
{
    if s.len() > 0 && s[0] != c {
        lemma_position_of_found(s.skip(1), c);
        let n = position_of(s, c) as int;
        assert forall|i: int| 0 <= i < n implies s[i] != c by {
            if i > 0 {
                assert(s.skip(1)[i - 1] == s[i]);
            }
        }
    }
}

/// The next position from `from` on that holds `c`, or the end.
pub fn next_position(v: &[char], c: char, from: usize) -> (r: usize)
    requires
        from <= v@.len(),
    ensures
        from <= r <= v@.len(),
        r - from == position_of(v@.skip(from as int), c),
        forall|i: int| from <= i < r ==> v@[i] != c,
        r < v@.len() ==> v@[r as int] == c,
{
    let mut i: usize = from;
    while i < v.len() && v[i] != c
        invariant
            from <= i <= v@.len(),
            forall|j: int| from <= j < i ==> v@[j] != c,
        decreases v@.len() - i,
    {
        i = i + 1;
    }
    proof {
        lemma_position_of(v@.skip(from as int), c, i - from);
    }
    i
}

/// The parts of a text between the separators; a text without one is its own part.
pub open spec fn split(s: Seq<char>, c: char) -> Seq<Seq<char>>
    decreases s.len(),
{
    let n = position_of(s, c) as int;
    if 0 <= n < s.len() {
        seq![s.take(n)] + split(s.skip(n + 1), c)
    } else {
        seq![s]
    }
}

pub fn parts(s: &str, c: char) -> (r: Vec<String>)
    ensures
        texts(r@) == split(s@, c),
{
    broadcast use lemma_texts_push;
    let v = chars(s);
    let mut r: Vec<String> = Vec::new();
    let mut from: usize = 0;
    assert(v@.skip(0) =~= v@);
    loop
        invariant
            v@ == s@,
            from <= v@.len(),
            texts(r@) + split(v@.skip(from as int), c) == split(v@, c),
        decreases v@.len() - from,
    {
        broadcast use lemma_texts_push;
        let to = next_position(&v, c, from);
        r.push(slice(&v, from, to));
        let ghost rest = v@.skip(from as int);
        assert(rest.take(to - from) =~= v@.subrange(from as int, to as int));
        if to == v.len() {
            assert(rest =~= v@.subrange(from as int, to as int));
            assert(texts(r@) =~= split(v@, c));
            return r;
        }
        assert(rest.skip(to - from + 1) =~= v@.skip(to + 1));
        assert(split(rest, c) == seq![rest.take(to - from)] + split(v@.skip(to + 1), c));
        proof {
            assert(texts(r@) + split(v@.skip(to + 1), c) =~= split(v@, c));
        }
        from = to + 1;
    }
}

/// A line without the carriage return that stood before its end.
pub open spec fn without_return(s: Seq<char>) -> Seq<char> {
    if s.len() > 0 && s.last() == '\r' {
        s.drop_last()
    } else {
        s
    }
}

/// The lines of a text: each ends in a line feed, or in a carriage return and a
/// line feed; the last one may stand without either.
pub open spec fn lines(s: Seq<char>) -> Seq<Seq<char>>
    decreases s.len(),
{
    let n = position_of(s, '\n') as int;
    if s.len() == 0 {
        seq![]
    } else if 0 <= n < s.len() {
        seq![without_return(s.take(n))] + lines(s.skip(n + 1))
    } else {
        seq![s]
    }
}

pub fn split_lines(s: &str) -> (r: Vec<String>)
    ensures
        texts(r@) == lines(s@),
{
    broadcast use lemma_texts_push;
    let v = chars(s);
    let mut r: Vec<String> = Vec::new();
    let mut from: usize = 0;
    assert(v@.skip(0) =~= v@);
    assert(texts(r@) + lines(v@) =~= lines(v@));
    while from < v.len()
        invariant
            from <= v@.len(),
            texts(r@) + lines(v@.skip(from as int)) == lines(v@),
        decreases v@.len() - from,
    {
        broadcast use lemma_texts_push;
        let to = next_position(&v, '\n', from);
        let ghost rest = v@.skip(from as int);
        let ghost before = texts(r@);
        assert(rest.take(to - from) =~= v@.subrange(from as int, to as int));
        if to == v.len() {
            assert(rest =~= v@.subrange(from as int, to as int));
            r.push(slice(&v, from, to));
            assert(v@.skip(to as int) =~= Seq::<char>::empty());
            assert(texts(r@) + lines(v@.skip(to as int)) =~= before + lines(rest));
            from = to;
        } else {
            assert(rest.skip(to - from + 1) =~= v@.skip(to + 1));
            if to > from && v[to - 1] == '\r' {
                assert(v@.subrange(from as int, to as int).drop_last() =~= v@.subrange(
                    from as int,
                    to - 1,
                ));
                r.push(slice(&v, from, to - 1));
            } else {
                r.push(slice(&v, from, to));
            }
            assert(texts(r@) + lines(v@.skip(to + 1)) =~= before + lines(rest));
            from = to + 1;
        }
    }
    assert(v@.skip(from as int) =~= Seq::<char>::empty());
    assert(texts(r@) + lines(v@.skip(from as int)) =~= texts(r@));
    r
}

/// How many characters stand before the first white space.
pub open spec fn word_len(s: Seq<char>) -> nat
    decreases s.len(),
{
    if s.len() == 0 || is_space(s[0]) {
        0
    } else {
        1 + word_len(s.skip(1))
    }
}

pub proof fn lemma_word_len(s: Seq<char>, n: int)
    requires
        0 <= n <= s.len(),
        forall|i: int| 0 <= i < n ==> !is_space(s[i]),
        n < s.len() ==> is_space(s[n]),
    ensures
        word_len(s) == n,
    decreases s.len(),
{
    if s.len() > 0 && !is_space(s[0]) {
        assert forall|i: int| 0 <= i < n - 1 implies !is_space(s.skip(1)[i]) by {
            assert(s.skip(1)[i] == s[i + 1]);
        }
        if n < s.len() {
            assert(s.skip(1)[n - 1] == s[n]);
        }
        lemma_word_len(s.skip(1), n - 1);
    }
}

pub proof fn lemma_word_len_bound(s: Seq<char>)
    ensures
        word_len(s) <= s.len(),
        s.len() > 0 && !is_space(s[0]) ==> word_len(s) > 0,
    decreases s.len(),
{
    if s.len() > 0 && !is_space(s[0]) {
        lemma_word_len_bound(s.skip(1));
    }
}

/// The words of a text: what stands between runs of white space.
pub open spec fn words(s: Seq<char>) -> Seq<Seq<char>>
    decreases s.len(),
    via words_decreases
{
    if s.len() == 0 {
        seq![]
    } else if is_space(s[0]) {
        words(s.skip(1))
    } else {
        seq![s.take(word_len(s) as int)] + words(s.skip(word_len(s) as int))
    }
}

#[via_fn]
proof fn words_decreases(s: Seq<char>) {
    lemma_word_len_bound(s);
}

pub fn split_words(s: &str) -> (r: Vec<String>)
    ensures
        texts(r@) == words(s@),
{
    broadcast use lemma_texts_push;
    let v = chars(s);
    let mut r: Vec<String> = Vec::new();
    let mut from: usize = 0;
    assert(v@.skip(0) =~= v@);
    assert(texts(r@) + words(v@) =~= words(v@));
    while from < v.len()
        invariant
            from <= v@.len(),
            texts(r@) + words(v@.skip(from as int)) == words(v@),
        decreases v@.len() - from,
    {
        broadcast use lemma_texts_push;
        let ghost rest = v@.skip(from as int);
        let ghost before = texts(r@);
        if space(v[from]) {
            assert(rest.skip(1) =~= v@.skip(from + 1));
            from = from + 1;
        } else {
            let mut to: usize = from + 1;
            while to < v.len() && !space(v[to])
                invariant
                    from < to <= v@.len(),
                    forall|j: int| from <= j < to ==> !is_space(v@[j]),
                decreases v@.len() - to,
            {
                to = to + 1;
            }
            proof {
                lemma_word_len(rest, to - from);
            }
            assert(rest.take(to - from) =~= v@.subrange(from as int, to as int));
            assert(rest.skip(to - from) =~= v@.skip(to as int));
            r.push(slice(&v, from, to));
            assert(texts(r@) + words(v@.skip(to as int)) =~= before + words(rest));
            from = to;
        }
    }
    assert(v@.skip(from as int) =~= Seq::<char>::empty());
    assert(texts(r@) + words(v@.skip(from as int)) =~= texts(r@));
    r
}

/// Texts put together with a separator between neighbours.
pub open spec fn join(p: Seq<Seq<char>>, sep: Seq<char>) -> Seq<char>
    decreases p.len(),
{
    if p.len() == 0 {
        seq![]
    } else if p.len() == 1 {
        p[0]
    } else {
        join(p.drop_last(), sep) + sep + p.last()
    }
}

pub fn joined(p: &[String], sep: &str) -> (r: String)
    ensures
        r@ == join(texts(p@), sep@),
{
    let mut r = String::new();
    let mut i: usize = 0;
    let ghost all = texts(p@);
    while i < p.len()
        invariant
            i <= p@.len(),
            all == texts(p@),
            r@ == join(all.take(i as int), sep@),
        decreases p@.len() - i,
    {
        let ghost before = all.take(i as int);
        assert(all.take(i + 1).drop_last() =~= before);
        if i > 0 {
            r.append(sep);
        } else {
            assert(Seq::<char>::empty() + p@[i as int]@ =~= p@[i as int]@);
        }
        r.append(p[i].as_str());
        i = i + 1;
    }
    assert(all.take(i as int) =~= all);
    r
}

/// A text with every `old` replaced, from the left.
pub open spec fn replace(s: Seq<char>, pattern: Seq<char>, with: Seq<char>) -> Seq<char>
    decreases s.len(),
{
    if s.len() == 0 || pattern.len() == 0 {
        s
    } else if pattern.is_prefix_of(s) {
        with + replace(s.skip(pattern.len() as int), pattern, with)
    } else {
        seq![s[0]] + replace(s.skip(1), pattern, with)
    }
}

/// Whether `v` holds `pattern` at position `at`.
pub fn matches_at(v: &[char], at: usize, pattern: &[char]) -> (r: bool)
    requires
        at <= v@.len(),
    ensures
        r == pattern@.is_prefix_of(v@.skip(at as int)),
{
    let len: usize = v.len();
    if pattern.len() > len - at {
        return false;
    }
    let mut i: usize = 0;
    while i < pattern.len()
        invariant
            i <= pattern@.len(),
            len == v@.len(),
            at + pattern@.len() <= v@.len(),
            forall|j: int| 0 <= j < i ==> v@[at + j] == pattern@[j],
        decreases pattern@.len() - i,
    {
        if v[at + i] != pattern[i] {
            assert(v@.skip(at as int)[i as int] != pattern@[i as int]);
            return false;
        }
        i = i + 1;
    }
    assert(pattern@ =~= v@.skip(at as int).subrange(0, pattern@.len() as int));
    true
}

pub fn replaced(s: &str, pattern: &str, with: &str) -> (r: String)
    requires
        pattern@.len() > 0,
    ensures
        r@ == replace(s@, pattern@, with@),
{
    let v = chars(s);
    let p = chars(pattern);
    let mut r = String::new();
    let mut i: usize = 0;
    assert(v@.skip(0) =~= v@);
    while i < v.len()
        invariant
            i <= v@.len(),
            p@ == pattern@,
            p@.len() > 0,
            r@ + replace(v@.skip(i as int), p@, with@) == replace(v@, p@, with@),
        decreases v@.len() - i,
    {
        let ghost rest = v@.skip(i as int);
        let ghost before = r@;
        if matches_at(&v, i, &p) {
            assert(rest.skip(p@.len() as int) =~= v@.skip(i + p@.len()));
            r.append(with);
            i = i + p.len();
            assert(r@ + replace(v@.skip(i as int), p@, with@) =~= before + replace(rest, p@, with@));
        } else {
            assert(rest.skip(1) =~= v@.skip(i + 1));
            r.push(v[i]);
            i = i + 1;
            assert(r@ + replace(v@.skip(i as int), p@, with@) =~= before + replace(rest, p@, with@));
        }
    }
    assert(v@.skip(i as int) =~= Seq::<char>::empty());
    assert(r@ + replace(v@.skip(i as int), p@, with@) =~= r@);
    r
}

/// Whether `pattern` stands somewhere in `s`.
pub open spec fn contains(s: Seq<char>, pattern: Seq<char>) -> bool {
    exists|i: int| 0 <= i <= s.len() && #[trigger] pattern.is_prefix_of(s.skip(i))
}

pub fn has(s: &str, pattern: &str) -> (r: bool)
    ensures
        r == contains(s@, pattern@),
{
    let v = chars(s);
    let p = chars(pattern);
    let mut i: usize = 0;
    loop
        invariant
            v@ == s@,
            p@ == pattern@,
            i <= v@.len(),
            forall|j: int| 0 <= j < i ==> !#[trigger] p@.is_prefix_of(v@.skip(j)),
        decreases v@.len() - i,
    {
        if matches_at(&v, i, &p) {
            return true;
        }
        if i == v.len() {
            return false;
        }
        i = i + 1;
    }
}

pub fn has_char(s: &str, c: char) -> (r: bool)
    ensures
        r == s@.contains(c),
{
    let v = chars(s);
    let n = next_position(&v, c, 0);
    n < v.len()
}

pub fn starts_with(s: &str, prefix: &str) -> (r: bool)
    ensures
        r == prefix@.is_prefix_of(s@),
{
    let v = chars(s);
    let p = chars(prefix);
    assert(v@.skip(0) =~= v@);
    matches_at(&v, 0, &p)
}

pub fn ends_with(s: &str, suffix: &str) -> (r: bool)
    ensures
        r == suffix@.is_suffix_of(s@),
{
    let v = chars(s);
    let p = chars(suffix);
    if p.len() > v.len() {
        return false;
    }
    let at: usize = v.len() - p.len();
    assert(v@.skip(at as int).subrange(0, p@.len() as int) =~= v@.subrange(at as int, v@.len() as int));
    matches_at(&v, at, &p)
}

pub fn same(a: &str, b: &str) -> (r: bool)
    ensures
        r == (a@ == b@),
{
    a.to_owned() == b.to_owned()
}

/// Whether `item` is one of `list`.
pub fn listed(list: &[String], item: &str) -> (r: bool)
    ensures
        r == texts(list@).contains(item@),
{
    let key = item.to_owned();
    let mut i: usize = 0;
    while i < list.len()
        invariant
            i <= list@.len(),
            key@ == item@,
            forall|j: int| 0 <= j < i ==> texts(list@)[j] != item@,
        decreases list@.len() - i,
    {
        if list[i] == key {
            assert(texts(list@)[i as int] == item@);
            return true;
        }
        i = i + 1;
    }
    false
}

/// A character with `A` to `Z` made small.
pub open spec fn ascii_lower(c: char) -> char {
    if 'A' <= c <= 'Z' {
        ((c as u32 + 32) as u32) as char
    } else {
        c
    }
}

/// A text with `A` to `Z` made small.
pub open spec fn ascii_lowercase(s: Seq<char>) -> Seq<char> {
    Seq::new(s.len(), |i: int| ascii_lower(s[i]))
}

pub fn lower_char(c: char) -> (r: char)
    ensures
        r == ascii_lower(c),
{
    if c >= 'A' && c <= 'Z' {
        let u: u8 = c as u8;
        (u + 32) as char
    } else {
        c
    }
}

pub fn ascii_lowered(s: &str) -> (r: String)
    ensures
        r@ == ascii_lowercase(s@),
{
    let v = chars(s);
    let mut r = String::new();
    let mut i: usize = 0;
    while i < v.len()
        invariant
            v@ == s@,
            i <= v@.len(),
            r@ == ascii_lowercase(s@).take(i as int),
        decreases v@.len() - i,
    {
        assert(ascii_lowercase(s@).take(i + 1) =~= ascii_lowercase(s@).take(i as int).push(
            ascii_lower(s@[i as int]),
        ));
        r.push(lower_char(v[i]));
        i = i + 1;
    }
    assert(ascii_lowercase(s@).take(i as int) =~= ascii_lowercase(s@));
    r
}

/// Whether two texts differ at most in the case of `A` to `Z`.
pub fn same_ignoring_case(a: &str, b: &str) -> (r: bool)
    ensures
        r == (ascii_lowercase(a@) == ascii_lowercase(b@)),
{
    let x = ascii_lowered(a);
    let y = ascii_lowered(b);
    same(x.as_str(), y.as_str())
}

/// What `str::to_lowercase` makes of a text.
pub uninterp spec fn lowercase_of(s: Seq<char>) -> Seq<char>;

/// `str::to_lowercase` makes `A` to `Z` small in a text of ASCII characters; of any
/// other text it makes one that depends on the text alone.
#[verifier::external_body]
fn to_lowercase(s: &str) -> (r: String)
    ensures
        r@ == lowercase_of(s@),
        vstd::utf8::is_ascii_chars(s@) ==> r@ == ascii_lowercase(s@),
{
    s.to_lowercase()
}

/// A text in small letters.
pub open spec fn lower(s: Seq<char>) -> Seq<char> {
    if vstd::utf8::is_ascii_chars(s) {
        ascii_lowercase(s)
    } else {
        lowercase_of(s)
    }
}

pub fn lowered(s: &str) -> (r: String)
    ensures
        r@ == lower(s@),
{
    to_lowercase(s)
}

/// Where `pattern` first stands in `s`, from `from` on.
pub open spec fn find_from(s: Seq<char>, pattern: Seq<char>, from: nat) -> Option<nat>
    decreases s.len() - from,
{
    if from > s.len() {
        None
    } else if pattern.is_prefix_of(s.skip(from as int)) {
        Some(from)
    } else if from == s.len() {
        None
    } else {
        find_from(s, pattern, from + 1)
    }
}

/// Where `pattern` first stands in `s`.
pub open spec fn find(s: Seq<char>, pattern: Seq<char>) -> Option<nat> {
    find_from(s, pattern, 0)
}

pub proof fn lemma_find_from(s: Seq<char>, pattern: Seq<char>, from: nat)
    ensures
        (match find_from(s, pattern, from) {
            Some(n) => from <= n && n + pattern.len() <= s.len() && pattern.is_prefix_of(
                s.skip(n as int),
            ),
            None => true,
        }),
    decreases s.len() - from,
{
    if from < s.len() && !pattern.is_prefix_of(s.skip(from as int)) {
        lemma_find_from(s, pattern, from + 1);
    }
}

/// Where `pattern` first stands in `v`, from `from` on.
pub fn next_match(v: &[char], pattern: &[char], from: usize) -> (r: Option<usize>)
    requires
        from <= v@.len(),
    ensures
        (match r {
            Some(n) => find_from(v@, pattern@, from as nat) == Some(n as nat) && from <= n && n
                + pattern@.len() <= v@.len(),
            None => find_from(v@, pattern@, from as nat) is None,
        }),
{
    proof {
        lemma_find_from(v@, pattern@, from as nat);
    }
    let mut i: usize = from;
    loop
        invariant
            from <= i <= v@.len(),
            find_from(v@, pattern@, from as nat) == find_from(v@, pattern@, i as nat),
            match find_from(v@, pattern@, from as nat) {
                Some(n) => n + pattern@.len() <= v@.len(),
                None => true,
            },
        decreases v@.len() - i,
    {
        if matches_at(v, i, pattern) {
            return Some(i);
        }
        if i == v.len() {
            return None;
        }
        i = i + 1;
    }
}

/// The whole number from `-lowest` to `highest` that a text gives in digits, a sign in
/// front allowed.
pub open spec fn signed_in(s: Seq<char>, lowest: nat, highest: nat) -> Option<int> {
    if s.len() > 0 && s[0] == '-' {
        match digits_within(s.skip(1), lowest) {
            Some(n) => Some(-(n as int)),
            None => None,
        }
    } else {
        match unsigned_in(s, highest) {
            Some(n) => Some(n as int),
            None => None,
        }
    }
}

/// The whole number that a text gives, if 32 bits can hold it.
pub open spec fn integer_in(s: Seq<char>) -> Option<int> {
    signed_in(s, 0x8000_0000, 0x7fff_ffff)
}

/// The whole number that a text gives, if 64 bits can hold it.
pub open spec fn long_integer_in(s: Seq<char>) -> Option<int> {
    signed_in(s, 0x8000_0000_0000_0000, 0x7fff_ffff_ffff_ffff)
}

fn parse_signed(s: &str, lowest: u64, highest: u64) -> (r: Option<i128>)
    ensures
        (match r {
            Some(n) => signed_in(s@, lowest as nat, highest as nat) == Some(n as int) && -lowest
                <= n <= highest,
            None => signed_in(s@, lowest as nat, highest as nat) is None,
        }),
{
    let v = chars(s);
    if v.len() > 0 && v[0] == '-' {
        let rest = slice(&v, 1, v.len());
        assert(rest@ =~= s@.skip(1));
        match parse_digits(rest.as_str(), lowest) {
            Some(n) => Some(0 - n as i128),
            None => None,
        }
    } else {
        match parse_unsigned(s, highest) {
            Some(n) => Some(n as i128),
            None => None,
        }
    }
}

pub fn parse_integer(s: &str) -> (r: Option<i32>)
    ensures
        (match r {
            Some(n) => integer_in(s@) == Some(n as int),
            None => integer_in(s@) is None,
        }),
{
    match parse_signed(s, 0x8000_0000, 0x7fff_ffff) {
        Some(n) => Some(n as i32),
        None => None,
    }
}

pub fn parse_long_integer(s: &str) -> (r: Option<i64>)
    ensures
        (match r {
            Some(n) => long_integer_in(s@) == Some(n as int),
            None => long_integer_in(s@) is None,
        }),
{
    match parse_signed(s, 0x8000_0000_0000_0000, 0x7fff_ffff_ffff_ffff) {
        Some(n) => Some(n as i64),
        None => None,
    }
}

/// A whole number in digits, with a minus sign in front of a negative one.
pub open spec fn signed_digits(n: int) -> Seq<char> {
    if n < 0 {
        "-"@ + digits((-n) as nat)
    } else {
        digits(n as nat)
    }
}

pub fn signed_number(n: i64) -> (r: String)
    ensures
        r@ == signed_digits(n as int),
{
    if n < 0 {
        let size: u64 = (0 - n as i128) as u64;
        "-".to_owned().concat(number(size).as_str())
    } else {
        number(n as u64)
    }
}

/// The digit that stands for a number below ten.
pub open spec fn digit_char(n: nat) -> char {
    (('0' as u32 + n) as u32) as char
}

/// The decimal digits of a number, without leading zeros.
pub open spec fn digits(n: nat) -> Seq<char>
    decreases n,
{
    if n < 10 {
        seq![digit_char(n)]
    } else {
        digits(n / 10).push(digit_char(n % 10))
    }
}

/// The value of a row of digits.
pub open spec fn digits_value(s: Seq<char>) -> nat
    decreases s.len(),
{
    if s.len() == 0 {
        0
    } else {
        digits_value(s.drop_last()) * 10 + (s.last() as u32 - '0' as u32) as nat
    }
}

pub proof fn lemma_digits(n: nat)
    ensures
        all_digits(digits(n)),
        digits(n).len() > 0,
        digits_value(digits(n)) == n,
    decreases n,
{
    if n >= 10 {
        lemma_digits(n / 10);
        let d = digits(n / 10);
        let c = digit_char(n % 10);
        assert(d.push(c).drop_last() =~= d);
        assert(c as u32 - '0' as u32 == n % 10);
    } else {
        let d = seq![digit_char(n)];
        assert(d.drop_last() =~= Seq::<char>::empty());
        reveal_with_fuel(digits_value, 2);
    }
}

pub fn number(n: u64) -> (r: String)
    ensures
        r@ == digits(n as nat),
    decreases n,
{
    if n < 10 {
        let mut r = String::new();
        r.push((48 + n as u8) as char);
        assert(r@ =~= seq![digit_char(n as nat)]);
        r
    } else {
        let mut r = number(n / 10);
        r.push((48 + (n % 10) as u8) as char);
        r
    }
}

/// The value of a text that holds nothing but digits, if it is at most `limit`.
pub open spec fn digits_within(s: Seq<char>, limit: nat) -> Option<nat> {
    if s.len() > 0 && all_digits(s) && digits_value(s) <= limit {
        Some(digits_value(s))
    } else {
        None
    }
}

pub fn parse_digits(s: &str, limit: u64) -> (r: Option<u64>)
    ensures
        (match r {
            Some(n) => digits_within(s@, limit as nat) == Some(n as nat),
            None => digits_within(s@, limit as nat) is None,
        }),
{
    let v = chars(s);
    if v.len() == 0 {
        return None;
    }
    let mut n: u64 = 0;
    let mut i: usize = 0;
    let mut fits = true;
    while i < v.len()
        invariant
            v@ == s@,
            i <= v@.len(),
            all_digits(v@.take(i as int)),
            fits ==> n == digits_value(v@.take(i as int)) && n <= limit,
            !fits ==> digits_value(v@.take(i as int)) > limit,
        decreases v@.len() - i,
    {
        if !digit(v[i]) {
            assert(!is_digit(s@[i as int]));
            return None;
        }
        let d: u64 = (v[i] as u64) - 48;
        assert(v@.take(i + 1).drop_last() =~= v@.take(i as int));
        if fits {
            if n > limit / 10 || n * 10 > limit - d.min(limit) || d > limit {
                fits = false;
            } else {
                n = n * 10 + d;
            }
        }
        i = i + 1;
    }
    assert(v@.take(i as int) =~= s@);
    if fits {
        Some(n)
    } else {
        None
    }
}

/// A text filled up on the left.
pub open spec fn pad_left(s: Seq<char>, width: nat, fill: char) -> Seq<char> {
    if s.len() < width {
        Seq::new((width - s.len()) as nat, |i: int| fill) + s
    } else {
        s
    }
}

/// A text filled up on the right.
pub open spec fn pad_right(s: Seq<char>, width: nat, fill: char) -> Seq<char> {
    if s.len() < width {
        s + Seq::new((width - s.len()) as nat, |i: int| fill)
    } else {
        s
    }
}

pub fn repeated(c: char, n: usize) -> (r: String)
    ensures
        r@ == Seq::new(n as nat, |i: int| c),
{
    let mut r = String::new();
    let mut i: usize = 0;
    while i < n
        invariant
            i <= n,
            r@ == Seq::new(i as nat, |i: int| c),
        decreases n - i,
    {
        r.push(c);
        assert(r@ =~= Seq::new(i as nat + 1, |i: int| c));
        i = i + 1;
    }
    r
}

pub fn padded_left(s: &str, width: usize, fill: char) -> (r: String)
    ensures
        r@ == pad_left(s@, width as nat, fill),
{
    let len: usize = s.unicode_len();
    if len < width {
        let mut r = repeated(fill, width - len);
        r.append(s);
        r
    } else {
        s.to_owned()
    }
}

pub fn padded_right(s: &str, width: usize, fill: char) -> (r: String)
    ensures
        r@ == pad_right(s@, width as nat, fill),
{
    let len: usize = s.unicode_len();
    if len < width {
        let mut r = s.to_owned();
        let fill = repeated(fill, width - len);
        r.append(fill.as_str());
        r
    } else {
        s.to_owned()
    }
}

/// Replacing a single character goes through a text piece by piece.
pub proof fn lemma_replace_char_concat(a: Seq<char>, b: Seq<char>, p: Seq<char>, w: Seq<char>)
    requires
        p.len() == 1,
    ensures
        replace(a + b, p, w) == replace(a, p, w) + replace(b, p, w),
    decreases a.len(),
{
    if a.len() == 0 {
        assert(a + b =~= b);
        assert(replace(a, p, w) + replace(b, p, w) =~= replace(b, p, w));
    } else {
        let s = a + b;
        assert(s.skip(1) =~= a.skip(1) + b);
        lemma_replace_char_concat(a.skip(1), b, p, w);
        assert(s.subrange(0, 1) =~= a.subrange(0, 1));
        assert(p.is_prefix_of(s) == p.is_prefix_of(a));
        assert(replace(s, p, w) =~= replace(a, p, w) + replace(b, p, w));
    }
}

/// A text without a character is left alone when that character is replaced.
pub proof fn lemma_replace_absent(s: Seq<char>, p: Seq<char>, w: Seq<char>)
    requires
        p.len() == 1,
        !s.contains(p[0]),
    ensures
        replace(s, p, w) == s,
    decreases s.len(),
{
    if s.len() > 0 {
        assert forall|i: int| 0 <= i < s.skip(1).len() implies s.skip(1)[i] != p[0] by {
            assert(s.skip(1)[i] == s[i + 1]);
            assert(s.contains(s[i + 1]));
        }
        lemma_replace_absent(s.skip(1), p, w);
        assert(s.contains(s[0]));
        assert(s.subrange(0, 1)[0] == s[0]);
        assert(replace(s, p, w) =~= s);
    }
}

/// The bytes of ASCII text are its characters, and ASCII bytes are always valid.
pub proof fn lemma_ascii_bytes(b: Seq<u8>)
    requires
        forall|i: int| 0 <= i < b.len() ==> #[trigger] b[i] < 0x80,
    ensures
        vstd::utf8::valid_utf8(b),
        vstd::utf8::decode_utf8(b) == Seq::new(b.len(), |i: int| b[i] as char),
        vstd::utf8::encode_utf8(Seq::new(b.len(), |i: int| b[i] as char)) == b,
{
    let c = Seq::new(b.len(), |i: int| b[i] as char);
    assert(vstd::utf8::is_ascii_chars(c));
    vstd::utf8::is_ascii_chars_encode_utf8(c);
    assert(vstd::utf8::encode_utf8(c) =~= b);
    vstd::utf8::encode_utf8_valid_utf8(c);
    vstd::utf8::encode_utf8_decode_utf8(c);
}

/// ASCII text has one byte for each character.
pub proof fn lemma_ascii_text(s: Seq<char>)
    requires
        vstd::utf8::is_ascii_chars(s),
    ensures
        vstd::utf8::encode_utf8(s) == Seq::new(s.len(), |i: int| s[i] as u8),
        forall|i: int| 0 <= i < s.len() ==> #[trigger] vstd::utf8::encode_utf8(s)[i] < 0x80,
{
    vstd::utf8::is_ascii_chars_encode_utf8(s);
    assert(vstd::utf8::encode_utf8(s) =~= Seq::new(s.len(), |i: int| s[i] as u8));
}

/// The number, at most `limit`, that a text gives in digits, a plus sign in front
/// allowed.
pub open spec fn unsigned_in(s: Seq<char>, limit: nat) -> Option<nat> {
    if s.len() > 0 && s[0] == '+' {
        digits_within(s.skip(1), limit)
    } else {
        digits_within(s, limit)
    }
}

pub fn parse_unsigned(s: &str, limit: u64) -> (r: Option<u64>)
    ensures
        (match r {
            Some(n) => unsigned_in(s@, limit as nat) == Some(n as nat) && n <= limit,
            None => unsigned_in(s@, limit as nat) is None,
        }),
{
    let v = chars(s);
    if v.len() > 0 && v[0] == '+' {
        let rest = slice(&v, 1, v.len());
        assert(rest@ =~= s@.skip(1));
        parse_digits(rest.as_str(), limit)
    } else {
        parse_digits(s, limit)
    }
}

/// The size that a text gives in digits, a plus sign in front allowed.
pub open spec fn size_in(s: Seq<char>) -> Option<nat> {
    unsigned_in(s, usize::MAX as nat)
}

pub fn parse_size(s: &str) -> (r: Option<usize>)
    ensures
        (match r {
            Some(n) => size_in(s@) == Some(n as nat),
            None => size_in(s@) is None,
        }),
{
    match parse_unsigned(s, usize::MAX as u64) {
        Some(n) => Some(n as usize),
        None => None,
    }
}

/// A text with its white space made single blanks, without any at its ends; blanks
/// that forbid a line break count as white space.
pub open spec fn single_spaced(s: Seq<char>) -> Seq<char> {
    join(words(s), " "@)
}

pub fn normalize_line(raw: &str) -> (r: String)
    ensures
        r@ == single_spaced(raw@),
{
    let found = split_words(raw);
    joined(found.as_slice(), " ")
}

/// A text without the white space in front.
pub fn trimmed_start(s: &str) -> (r: String)
    ensures
        r@ == trim_start(s@),
{
    let v = chars(s);
    let mut from: usize = 0;
    assert(v@.skip(0) =~= v@);
    while from < v.len() && space(v[from])
        invariant
            from <= v@.len(),
            trim_start(v@.skip(from as int)) == trim_start(v@),
        decreases v@.len() - from,
    {
        assert(v@.skip(from as int).skip(1) =~= v@.skip(from as int + 1));
        from = from + 1;
    }
    let r = slice(&v, from, v.len());
    assert(r@ =~= v@.skip(from as int));
    r
}

/// A text without any `c` at its end.
pub open spec fn without_end(s: Seq<char>, c: char) -> Seq<char>
    decreases s.len(),
{
    if s.len() > 0 && s.last() == c {
        without_end(s.drop_last(), c)
    } else {
        s
    }
}

pub fn cut_end(s: &str, c: char) -> (r: String)
    ensures
        r@ == without_end(s@, c),
{
    let v = chars(s);
    let mut to: usize = v.len();
    assert(v@.subrange(0, to as int) =~= v@);
    while to > 0 && v[to - 1] == c
        invariant
            to <= v@.len(),
            without_end(v@.subrange(0, to as int), c) == without_end(v@, c),
        decreases to,
    {
        assert(v@.subrange(0, to as int).drop_last() =~= v@.subrange(0, to - 1));
        to = to - 1;
    }
    slice(&v, 0, to)
}

/// What stands behind the last `c` of a text, or the whole text.
pub open spec fn after_last(s: Seq<char>, c: char) -> Seq<char>
    decreases s.len(),
{
    if s.len() == 0 || s.last() == c {
        seq![]
    } else {
        after_last(s.drop_last(), c).push(s.last())
    }
}

pub fn last_part(s: &str, c: char) -> (r: String)
    ensures
        r@ == after_last(s@, c),
{
    let v = chars(s);
    let mut from: usize = v.len();
    assert(v@.take(from as int) =~= v@);
    assert(after_last(v@, c) =~= after_last(v@, c) + v@.skip(from as int));
    while from > 0 && v[from - 1] != c
        invariant
            from <= v@.len(),
            after_last(v@, c) == after_last(v@.take(from as int), c) + v@.skip(from as int),
        decreases from,
    {
        assert(v@.take(from as int).drop_last() =~= v@.take(from - 1));
        assert(v@.take(from as int).last() == v@[from - 1]);
        assert(after_last(v@.take(from as int), c) + v@.skip(from as int) =~= after_last(
            v@.take(from - 1),
            c,
        ) + v@.skip(from - 1));
        from = from - 1;
    }
    let r = slice(&v, from, v.len());
    assert(r@ =~= v@.skip(from as int));
    assert(after_last(v@.take(from as int), c) =~= Seq::<char>::empty());
    assert(r@ =~= after_last(v@, c));
    r
}

} // verus!
