//! File names: their parts, and names that are safe to hand out.

use crate::model::opt_text;
use crate::text::{
    ascii_lowercase, ascii_lowered, chars, lemma_position_of, parts, same, slice, split, texts,
};
use vstd::prelude::*;

verus! {

/// The parts of a path that name something.
pub open spec fn named_parts(p: Seq<Seq<char>>) -> Seq<Seq<char>>
    decreases p.len(),
{
    if p.len() == 0 {
        seq![]
    } else if p.last().len() == 0 || p.last() == "."@ {
        named_parts(p.drop_last())
    } else {
        named_parts(p.drop_last()).push(p.last())
    }
}

/// The last part of a path, unless it leads upwards.
pub open spec fn name_in(path: Seq<char>) -> Option<Seq<char>> {
    let p = named_parts(split(path, '/'));
    if p.len() == 0 || p.last() == ".."@ {
        None
    } else {
        Some(p.last())
    }
}

pub fn file_name(path: &str) -> (r: Option<String>)
    ensures
        opt_text(r) == name_in(path@),
{
    let p = parts(path, '/');
    let ghost all = split(path@, '/');
    assert(p@.len() == texts(p@).len());
    let mut i: usize = p.len();
    assert(all.take(all.len() as int) =~= all);
    while i > 0
        invariant
            i <= p@.len() == all.len(),
            texts(p@) == all,
            name_in(path@) == (if named_parts(all.take(i as int)).len() == 0 || named_parts(
                all.take(i as int),
            ).last() == ".."@ {
                None
            } else {
                Some(named_parts(all.take(i as int)).last())
            }),
        decreases i,
    {
        assert(all.take(i as int).last() == p@[i - 1]@);
        assert(all.take(i as int).drop_last() =~= all.take(i - 1));
        let part = p[i - 1].as_str();
        if !part.is_empty() && !same(part, ".") {
            if same(part, "..") {
                return None;
            }
            return Some(p[i - 1].clone());
        }
        i = i - 1;
    }
    None
}

/// The position of the last `c` in the first `n` characters.
pub open spec fn last_of(s: Seq<char>, c: char, n: nat) -> Option<nat>
    decreases n,
{
    if n == 0 {
        None
    } else if s[n - 1] == c {
        Some((n - 1) as nat)
    } else {
        last_of(s, c, (n - 1) as nat)
    }
}

fn find_last_of(v: &[char], c: char) -> (r: Option<usize>)
    ensures
        (match r {
            Some(n) => last_of(v@, c, v@.len()) == Some(n as nat) && n < v@.len(),
            None => last_of(v@, c, v@.len()) is None,
        }),
{
    let mut n: usize = v.len();
    while n > 0
        invariant
            n <= v@.len(),
            last_of(v@, c, v@.len()) == last_of(v@, c, n as nat),
        decreases n,
    {
        if v[n - 1] == c {
            return Some(n - 1);
        }
        n = n - 1;
    }
    None
}

/// The name of a file without its extension.
pub open spec fn stem_of(name: Seq<char>) -> Seq<char> {
    match last_of(name, '.', name.len()) {
        Some(n) => if n == 0 {
            name
        } else {
            name.take(n as int)
        },
        None => name,
    }
}

/// The extension of a file; a point at the start of its name begins none.
pub open spec fn extension_of(name: Seq<char>) -> Option<Seq<char>> {
    match last_of(name, '.', name.len()) {
        Some(n) => if n == 0 {
            None
        } else {
            Some(name.skip(n as int + 1))
        },
        None => None,
    }
}

/// The name of the file at a path without its extension.
pub open spec fn path_stem(path: Seq<char>) -> Option<Seq<char>> {
    match name_in(path) {
        Some(name) => Some(stem_of(name)),
        None => None,
    }
}

/// The extension of the file at a path.
pub open spec fn path_extension(path: Seq<char>) -> Option<Seq<char>> {
    match name_in(path) {
        Some(name) => extension_of(name),
        None => None,
    }
}

pub fn file_stem(path: &str) -> (r: Option<String>)
    ensures
        opt_text(r) == path_stem(path@),
{
    match file_name(path) {
        Some(name) => {
            let v = chars(name.as_str());
            match find_last_of(&v, '.') {
                Some(n) => {
                    if n == 0 {
                        Some(name)
                    } else {
                        let stem = slice(&v, 0, n);
                        assert(stem@ =~= name@.take(n as int));
                        Some(stem)
                    }
                },
                None => Some(name),
            }
        },
        None => None,
    }
}

pub fn extension(path: &str) -> (r: Option<String>)
    ensures
        opt_text(r) == path_extension(path@),
{
    match file_name(path) {
        Some(name) => {
            let v = chars(name.as_str());
            match find_last_of(&v, '.') {
                Some(n) => {
                    if n == 0 {
                        None
                    } else {
                        let len: usize = v.len();
                        assert(n < len);
                        let rest = slice(&v, n + 1, len);
                        assert(rest@ =~= name@.skip(n + 1));
                        Some(rest)
                    }
                },
                None => None,
            }
        },
        None => None,
    }
}

/// What stands for a letter that only German has.
pub open spec fn spelled_out(c: char) -> Option<Seq<char>> {
    if c == 'ä' {
        Some("ae"@)
    } else if c == 'ö' {
        Some("oe"@)
    } else if c == 'ü' {
        Some("ue"@)
    } else if c == 'Ä' {
        Some("Ae"@)
    } else if c == 'Ö' {
        Some("Oe"@)
    } else if c == 'Ü' {
        Some("Ue"@)
    } else if c == 'ß' {
        Some("ss"@)
    } else {
        None
    }
}

/// Whether a character may stand in a file name as it is.
pub open spec fn harmless(c: char) -> bool {
    ||| 'a' <= c <= 'z'
    ||| 'A' <= c <= 'Z'
    ||| '0' <= c <= '9'
    ||| c == '.'
    ||| c == '-'
    ||| c == '_'
    ||| c == ' '
}

pub open spec fn all_harmless(s: Seq<char>) -> bool {
    forall|j: int| 0 <= j < s.len() ==> harmless(#[trigger] s[j])
}

/// A name with letters spelled out and all else left out, from `i` on behind `done`. It
/// ends once a spelled-out letter brings it to 160 characters.
pub open spec fn plain_name(source: Seq<char>, i: nat, done: Seq<char>) -> Seq<char>
    decreases source.len() - i,
{
    if i >= source.len() {
        done
    } else {
        let c = source[i as int];
        match spelled_out(c) {
            Some(letters) => if (done + letters).len() >= 160 {
                done + letters
            } else {
                plain_name(source, i + 1, done + letters)
            },
            None => if harmless(c) {
                plain_name(source, i + 1, done.push(c))
            } else {
                plain_name(source, i + 1, done)
            },
        }
    }
}

/// Whether a name has more than points and blanks.
pub open spec fn says_something(name: Seq<char>) -> bool {
    exists|i: int| 0 <= i < name.len() && (#[trigger] name[i]) != '.' && name[i] != ' '
}

/// A name that is safe to hand out.
pub open spec fn safe_name(value: Seq<char>) -> Seq<char> {
    let source = match name_in(value) {
        Some(name) => name,
        None => "leistungsverzeichnis.pdf"@,
    };
    let whole = plain_name(source, 0, seq![]);
    let name = if whole.len() > 160 {
        whole.take(160)
    } else {
        whole
    };
    if says_something(name) {
        name
    } else {
        "leistungsverzeichnis.pdf"@
    }
}

fn spell_out(c: char) -> (r: Option<&'static str>)
    ensures
        (match r {
            Some(letters) => spelled_out(c) == Some(letters@),
            None => spelled_out(c) is None,
        }),
{
    match c {
        'ä' => Some("ae"),
        'ö' => Some("oe"),
        'ü' => Some("ue"),
        'Ä' => Some("Ae"),
        'Ö' => Some("Oe"),
        'Ü' => Some("Ue"),
        'ß' => Some("ss"),
        _ => None,
    }
}

fn is_harmless(c: char) -> (r: bool)
    ensures
        r == harmless(c),
{
    ('a' <= c && c <= 'z') || ('A' <= c && c <= 'Z') || ('0' <= c && c <= '9') || c == '.' || c
        == '-' || c == '_' || c == ' '
}

fn plain_chars(source: &str) -> (r: String)
    ensures
        r@ == plain_name(source@, 0, seq![]),
{
    let v = chars(source);
    let mut done = String::new();
    let mut i: usize = 0;
    assert(done@ =~= seq![]);
    while i < v.len()
        invariant
            v@ == source@,
            i <= v@.len(),
            plain_name(source@, 0, seq![]) == plain_name(source@, i as nat, done@),
        decreases v@.len() - i,
    {
        match spell_out(v[i]) {
            Some(letters) => {
                done.append(letters);
                if done.as_str().unicode_len() >= 160 {
                    return done;
                }
            },
            None => {
                if is_harmless(v[i]) {
                    done.push(v[i]);
                }
            },
        }
        i = i + 1;
    }
    done
}

pub fn safe_filename(value: &str) -> (r: String)
    ensures
        r@ == safe_name(value@),
{
    let source = match file_name(value) {
        Some(name) => name,
        None => "leistungsverzeichnis.pdf".to_owned(),
    };
    let whole = plain_chars(source.as_str());
    let v = chars(whole.as_str());
    let name = if v.len() > 160 {
        let cut = slice(&v, 0, 160);
        assert(cut@ =~= whole@.take(160));
        cut
    } else {
        whole
    };
    let v = chars(name.as_str());
    let mut i: usize = 0;
    while i < v.len()
        invariant
            v@ == name@,
            i <= v@.len(),
            safe_name(value@) == (if says_something(name@) {
                name@
            } else {
                "leistungsverzeichnis.pdf"@
            }),
            forall|j: int| 0 <= j < i ==> (#[trigger] name@[j]) == '.' || name@[j] == ' ',
        decreases v@.len() - i,
    {
        if v[i] != '.' && v[i] != ' ' {
            assert(name@[i as int] != '.');
            return name;
        }
        i = i + 1;
    }
    "leistungsverzeichnis.pdf".to_owned()
}

/// The name of a converted file.
pub open spec fn converted_name(input: Seq<char>, extension: Seq<char>) -> Seq<char> {
    let stem = match path_stem(input) {
        Some(stem) => stem,
        None => "leistungsverzeichnis"@,
    };
    safe_name(stem) + "."@ + extension
}

pub fn output_filename_for(input: &str, extension: &str) -> (r: String)
    ensures
        r@ == converted_name(input@, extension@),
{
    let stem = match file_stem(input) {
        Some(stem) => stem,
        None => "leistungsverzeichnis".to_owned(),
    };
    safe_filename(stem.as_str()).concat(".").concat(extension)
}

pub fn output_filename(input: &str) -> (r: String)
    ensures
        r@ == converted_name(input@, "x83"@),
{
    output_filename_for(input, "x83")
}

/// Whether files with this extension can be read.
pub open spec fn readable_extension(extension: Seq<char>) -> bool {
    let e = ascii_lowercase(extension);
    ||| e == "d81"@
    ||| e == "d83"@
    ||| e == "p81"@
    ||| e == "p83"@
    ||| e == "x80"@
    ||| e == "x81"@
    ||| e == "x82"@
    ||| e == "x83"@
    ||| e == "x84"@
    ||| e == "x85"@
    ||| e == "x86"@
    ||| e == "x89"@
    ||| e == "xml"@
}

pub fn supported_gaeb_filename(filename: &str) -> (r: bool)
    ensures
        r == (path_extension(filename@) is Some && readable_extension(
            path_extension(filename@)->0,
        )),
{
    match extension(filename) {
        Some(e) => {
            let e = ascii_lowered(e.as_str());
            let e = e.as_str();
            same(e, "d81") || same(e, "d83") || same(e, "p81") || same(e, "p83") || same(e, "x80")
                || same(e, "x81") || same(e, "x82") || same(e, "x83") || same(e, "x84") || same(
                e,
                "x85",
            ) || same(e, "x86") || same(e, "x89") || same(e, "xml")
        },
        None => false,
    }
}

proof fn lemma_plain_name(source: Seq<char>, i: nat, done: Seq<char>)
    requires
        all_harmless(done),
    ensures
        all_harmless(plain_name(source, i, done)),
    decreases source.len() - i,
{
    if i < source.len() {
        let c = source[i as int];
        reveal_strlit("ae");
        reveal_strlit("oe");
        reveal_strlit("ue");
        reveal_strlit("Ae");
        reveal_strlit("Oe");
        reveal_strlit("Ue");
        reveal_strlit("ss");
        match spelled_out(c) {
            Some(letters) => {
                assert(letters.len() == 2 && harmless(letters[0]) && harmless(letters[1]));
                assert forall|j: int| 0 <= j < (done + letters).len() implies harmless(
                    #[trigger] (done + letters)[j],
                ) by {
                    if j < done.len() {
                        assert((done + letters)[j] == done[j]);
                    }
                }
                if (done + letters).len() < 160 {
                    lemma_plain_name(source, i + 1, done + letters);
                } else {
                    assert(plain_name(source, i, done) == done + letters);
                }
            },
            None => {
                if harmless(c) {
                    assert(forall|j: int|
                        0 <= j < done.push(c).len() ==> harmless(#[trigger] done.push(c)[j]));
                    lemma_plain_name(source, i + 1, done.push(c));
                } else {
                    lemma_plain_name(source, i + 1, done);
                }
            },
        }
    } else {
        assert(plain_name(source, i, done) == done);
    }
}

proof fn lemma_safe_stays(s: Seq<char>, i: nat)
    requires
        all_harmless(s),
        i <= s.len(),
    ensures
        plain_name(s, i, s.take(i as int)) == s,
    decreases s.len() - i,
{
    if i < s.len() {
        assert(harmless(s[i as int]));
        assert(s.take(i as int).push(s[i as int]) =~= s.take(i as int + 1));
        lemma_safe_stays(s, i + 1);
    } else {
        assert(s.take(i as int) =~= s);
    }
}

/// A name that is safe already stays as it is.
pub proof fn law_safe_name_stays(name: Seq<char>)
    requires
        name.len() <= 160,
        all_harmless(name),
        says_something(name),
    ensures
        safe_name(name) == name,
{
    assert forall|i: int| 0 <= i < name.len() implies name[i] != '/' by {
        assert(harmless(name[i]));
    }
    lemma_position_of(name, '/', name.len() as int);
    let p = split(name, '/');
    assert(p =~= seq![name]);
    reveal_strlit(".");
    reveal_strlit("..");
    let k = choose|i: int| 0 <= i < name.len() && (#[trigger] name[i]) != '.' && name[i] != ' ';
    assert(name != "."@ && name != ".."@) by {
        assert("."@[0] == '.' && "."@.len() == 1);
        assert(".."@[0] == '.' && ".."@[1] == '.' && ".."@.len() == 2);
    }
    assert(p.last() == name);
    assert(p.drop_last() =~= Seq::<Seq<char>>::empty());
    assert(named_parts(p.drop_last()) =~= Seq::<Seq<char>>::empty());
    assert(named_parts(p) =~= seq![name]);
    assert(name_in(name) == Some(name));
    assert(name.take(0) =~= Seq::<char>::empty());
    lemma_safe_stays(name, 0);
}

/// A safe name has at most 160 characters, more than points and blanks among them, and
/// only ASCII letters, digits, points, hyphens, underscores and blanks: nothing that leads
/// to another directory or ends a quoted header value. It stays as it is when it is made
/// safe again.
pub proof fn law_safe_name(value: Seq<char>)
    ensures
        0 < safe_name(value).len() <= 160,
        all_harmless(safe_name(value)),
        says_something(safe_name(value)),
        safe_name(safe_name(value)) == safe_name(value),
{
    let source = match name_in(value) {
        Some(name) => name,
        None => "leistungsverzeichnis.pdf"@,
    };
    lemma_plain_name(source, 0, seq![]);
    reveal_strlit("leistungsverzeichnis.pdf");
    assert("leistungsverzeichnis.pdf"@[0] == 'l');
    assert(says_something("leistungsverzeichnis.pdf"@));
    law_safe_name_stays(safe_name(value));
}

} // verus!
