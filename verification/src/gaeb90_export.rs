//! Writing of GAEB 90 offers (D84) in 80-column records.

use crate::clock::{Moment, MomentView};
use crate::decimal::{magnitude, pow10, Dec, Decimal};
use crate::document::{
    failure, row_views, DocumentView, Error, GaebDocument, GaebItem, GaebRow, ItemView, RowView,
};
use crate::text::{
    all_digits, chars, digit, digits, is_digit, join, joined,
    lemma_digits, lemma_position_of, lemma_replace_absent, lemma_replace_char_concat, next_position,
    number, pad_left, pad_right, padded_left, padded_right, parts, repeated, replace, replaced,
    slice, split, texts, trim, trimmed,
};
use vstd::prelude::*;
use vstd::utf8::{encode_utf8, is_ascii_chars};

verus! {

/// The byte of code page 850 that stands for a character in an offer.
pub open spec fn cp850_byte(c: char) -> u8 {
    if c == 'ä' {
        0x84
    } else if c == 'ö' {
        0x94
    } else if c == 'ü' {
        0x81
    } else if c == 'Ä' {
        0x8e
    } else if c == 'Ö' {
        0x99
    } else if c == 'Ü' {
        0x9a
    } else if c == 'ß' {
        0xe1
    } else if c == 'é' {
        0x82
    } else if c == '€' {
        'E' as u8
    } else if (c as u32) < 0x80 {
        c as u8
    } else {
        '?' as u8
    }
}

/// The bytes of code page 850 for a text.
pub open spec fn cp850_bytes(s: Seq<char>) -> Seq<u8> {
    Seq::new(s.len(), |i: int| cp850_byte(s[i]))
}

pub fn encode_cp850(value: &str) -> (r: Vec<u8>)
    ensures
        r@ == cp850_bytes(value@),
{
    let v = chars(value);
    let mut r: Vec<u8> = Vec::new();
    let mut i: usize = 0;
    while i < v.len()
        invariant
            v@ == value@,
            i <= v@.len(),
            r@ == cp850_bytes(value@).take(i as int),
        decreases v@.len() - i,
    {
        let c = v[i];
        let b: u8 = match c {
            'ä' => 0x84,
            'ö' => 0x94,
            'ü' => 0x81,
            'Ä' => 0x8e,
            'Ö' => 0x99,
            'Ü' => 0x9a,
            'ß' => 0xe1,
            'é' => 0x82,
            '€' => 0x45,
            _ => if (c as u32) < 0x80 {
                c as u8
            } else {
                0x3f
            },
        };
        r.push(b);
        assert(cp850_bytes(value@).take(i + 1) =~= cp850_bytes(value@).take(i as int).push(
            cp850_byte(c),
        ));
        i = i + 1;
    }
    assert(cp850_bytes(value@).take(i as int) =~= cp850_bytes(value@));
    r
}

/// The items of a document, in order.
pub open spec fn items_of(rows: Seq<RowView>) -> Seq<ItemView>
    decreases rows.len(),
{
    if rows.len() == 0 {
        seq![]
    } else {
        match rows.last() {
            RowView::Item(item) => items_of(rows.drop_last()).push(item),
            RowView::Category { .. } => items_of(rows.drop_last()),
        }
    }
}

pub open spec fn item_views(v: Seq<GaebItem>) -> Seq<ItemView> {
    Seq::new(v.len(), |i: int| v[i]@)
}

/// The items of a document as owned copies.
pub fn items(rows: &Vec<GaebRow>) -> (r: Vec<GaebItem>)
    ensures
        item_views(r@) == items_of(row_views(rows@)),
{
    let mut r: Vec<GaebItem> = Vec::new();
    let mut i: usize = 0;
    let ghost all = row_views(rows@);
    while i < rows.len()
        invariant
            i <= rows@.len(),
            all == row_views(rows@),
            item_views(r@) == items_of(all.take(i as int)),
        decreases rows@.len() - i,
    {
        assert(all.take(i + 1).drop_last() =~= all.take(i as int));
        assert(all.take(i + 1).last() == rows@[i as int]@);
        let ghost before = r@;
        match &rows[i] {
            GaebRow::Item(item) => {
                let copy = item.clone();
                r.push(copy);
                assert(item_views(r@) =~= item_views(before).push(item@));
            },
            GaebRow::Category { .. } => {},
        }
        i = i + 1;
    }
    assert(all.take(i as int) =~= all);
    r
}

/// The lengths, in bytes, of the parts of an ordinal number.
pub open spec fn lengths_of(oz: Seq<char>) -> Seq<nat> {
    Seq::new(split(oz, '.').len(), |i: int| encode_utf8(split(oz, '.')[i]).len())
}

pub open spec fn total(s: Seq<nat>) -> nat
    decreases s.len(),
{
    if s.len() == 0 {
        0
    } else {
        total(s.drop_last()) + s.last()
    }
}

/// Whether every part of an ordinal number holds nothing but digits.
pub open spec fn numeric(oz: Seq<char>) -> bool {
    forall|i: int| 0 <= i < split(oz, '.').len() ==> all_digits(#[trigger] split(oz, '.')[i])
}

/// The lengths that all ordinal numbers share, or why an offer cannot be written.
pub open spec fn shared_lengths(items: Seq<ItemView>) -> Result<Seq<nat>, Seq<char>> {
    let first = lengths_of(items[0].oz);
    if first.len() > 6 || total(first) > 9 {
        Err("Die OZ-Struktur passt nicht in die neunstellige GAEB-90-OZ-Maske."@)
    } else if exists|i: int| 0 <= i < items.len() && lengths_of((#[trigger] items[i]).oz) != first {
        Err("D84 erfordert eine einheitliche numerische OZ-Struktur."@)
    } else if exists|i: int| 0 <= i < items.len() && !numeric((#[trigger] items[i]).oz) {
        Err("D84 unterstützt in diesem Export nur numerische Ordnungszahlen."@)
    } else {
        Ok(first)
    }
}

pub open spec fn nats(v: Seq<usize>) -> Seq<nat> {
    Seq::new(v.len(), |i: int| v[i] as nat)
}

fn part_lengths(oz: &str) -> (r: Vec<usize>)
    ensures
        nats(r@) == lengths_of(oz@),
{
    let found = parts(oz, '.');
    let mut r: Vec<usize> = Vec::new();
    let mut i: usize = 0;
    while i < found.len()
        invariant
            i <= found@.len(),
            texts(found@) == split(oz@, '.'),
            nats(r@) == lengths_of(oz@).take(i as int),
        decreases found@.len() - i,
    {
        assert(texts(found@)[i as int] == found@[i as int]@);
        let ghost before = r@;
        let len: usize = found[i].as_str().as_bytes().len();
        r.push(len);
        assert(nats(r@) =~= nats(before).push(len as nat));
        assert(lengths_of(oz@).take(i + 1) =~= lengths_of(oz@).take(i as int).push(len as nat));
        i = i + 1;
    }
    assert(found@.len() == texts(found@).len());
    assert(lengths_of(oz@).take(i as int) =~= lengths_of(oz@));
    r
}

fn only_digits(s: &str) -> (r: bool)
    ensures
        r == all_digits(s@),
{
    let v = chars(s);
    let mut i: usize = 0;
    while i < v.len()
        invariant
            v@ == s@,
            i <= v@.len(),
            forall|j: int| 0 <= j < i ==> is_digit(v@[j]),
        decreases v@.len() - i,
    {
        if !digit(v[i]) {
            assert(!is_digit(s@[i as int]));
            return false;
        }
        i = i + 1;
    }
    true
}

fn is_numeric(oz: &str) -> (r: bool)
    ensures
        r == numeric(oz@),
{
    let found = parts(oz, '.');
    assert(found@.len() == texts(found@).len());
    let mut i: usize = 0;
    while i < found.len()
        invariant
            i <= found@.len(),
            found@.len() == split(oz@, '.').len(),
            texts(found@) == split(oz@, '.'),
            forall|j: int| 0 <= j < i ==> all_digits(#[trigger] split(oz@, '.')[j]),
        decreases found@.len() - i,
    {
        assert(texts(found@)[i as int] == found@[i as int]@);
        if !only_digits(found[i].as_str()) {
            assert(!all_digits(split(oz@, '.')[i as int]));
            return false;
        }
        i = i + 1;
    }
    true
}

fn same_lengths(a: &Vec<usize>, b: &Vec<usize>) -> (r: bool)
    ensures
        r == (nats(a@) == nats(b@)),
{
    if a.len() != b.len() {
        assert(nats(a@).len() != nats(b@).len());
        return false;
    }
    let mut i: usize = 0;
    while i < a.len()
        invariant
            i <= a@.len(),
            a@.len() == b@.len(),
            forall|j: int| 0 <= j < i ==> a@[j] == b@[j],
        decreases a@.len() - i,
    {
        if a[i] != b[i] {
            assert(nats(a@)[i as int] != nats(b@)[i as int]);
            return false;
        }
        i = i + 1;
    }
    assert(nats(a@) =~= nats(b@));
    true
}

proof fn lemma_total_prefix(s: Seq<nat>, n: int)
    requires
        0 <= n <= s.len(),
    ensures
        total(s.take(n)) <= total(s),
    decreases s.len() - n,
{
    if n < s.len() {
        lemma_total_prefix(s, n + 1);
        assert(s.take(n + 1).drop_last() =~= s.take(n));
    } else {
        assert(s.take(n) =~= s);
    }
}

fn over_nine(lengths: &Vec<usize>) -> (r: bool)
    ensures
        r == (total(nats(lengths@)) > 9),
{
    let ghost all = nats(lengths@);
    let mut sum: usize = 0;
    let mut i: usize = 0;
    while i < lengths.len()
        invariant
            i <= lengths@.len(),
            all == nats(lengths@),
            sum == total(all.take(i as int)),
            sum <= 9,
        decreases lengths@.len() - i,
    {
        assert(all.take(i + 1).drop_last() =~= all.take(i as int));
        if lengths[i] > 9 - sum {
            proof {
                lemma_total_prefix(all, i + 1);
            }
            return true;
        }
        sum = sum + lengths[i];
        i = i + 1;
    }
    assert(all.take(i as int) =~= all);
    false
}

pub open spec fn lengths_outcome(r: Result<Vec<usize>, Error>) -> Result<Seq<nat>, Seq<char>> {
    match r {
        Ok(v) => Ok(nats(v@)),
        Err(e) => Err(e@),
    }
}

pub fn oz_part_lengths(items: &[GaebItem]) -> (r: Result<Vec<usize>, Error>)
    requires
        items@.len() > 0,
    ensures
        lengths_outcome(r) == shared_lengths(item_views(items@)),
{
    let ghost all = item_views(items@);
    let first = part_lengths(items[0].oz.as_str());
    assert(all[0].oz == items@[0].oz@);
    assert(first@.len() == nats(first@).len());
    if first.len() > 6 || over_nine(&first) {
        return Err(failure("Die OZ-Struktur passt nicht in die neunstellige GAEB-90-OZ-Maske."));
    }
    let mut i: usize = 0;
    while i < items.len()
        invariant
            i <= items@.len(),
            all == item_views(items@),
            items@.len() > 0,
            nats(first@) == lengths_of(all[0].oz),
            first@.len() <= 6,
            total(nats(first@)) <= 9,
            forall|j: int| 0 <= j < i ==> lengths_of((#[trigger] all[j]).oz) == nats(first@),
        decreases items@.len() - i,
    {
        assert(all[i as int].oz == items@[i as int].oz@);
        let lengths = part_lengths(items[i].oz.as_str());
        if !same_lengths(&lengths, &first) {
            assert(first@.len() == nats(first@).len());
            return Err(failure("D84 erfordert eine einheitliche numerische OZ-Struktur."));
        }
        i = i + 1;
    }
    let mut i: usize = 0;
    while i < items.len()
        invariant
            i <= items@.len(),
            all == item_views(items@),
            items@.len() > 0,
            nats(first@) == lengths_of(all[0].oz),
            first@.len() <= 6,
            total(nats(first@)) <= 9,
            forall|j: int|
                0 <= j < items@.len() ==> lengths_of((#[trigger] all[j]).oz) == nats(first@),
            forall|j: int| 0 <= j < i ==> numeric((#[trigger] all[j]).oz),
        decreases items@.len() - i,
    {
        assert(all[i as int].oz == items@[i as int].oz@);
        if !is_numeric(items[i].oz.as_str()) {
            assert(first@.len() == nats(first@).len());
            return Err(
                failure("D84 unterstützt in diesem Export nur numerische Ordnungszahlen."),
            );
        }
        i = i + 1;
    }
    Ok(first)
}

/// The mask marker of a part, counted from the front of `count` parts.
pub open spec fn marker(count: nat, index: int) -> char {
    if count == 6 {
        seq!['1', '2', '3', '4', 'P', 'I'][index]
    } else {
        seq!['1', '2', '3', '4', '5', 'P'][index + 6 - count]
    }
}

/// A character written `n` times.
pub open spec fn times(c: char, n: nat) -> Seq<char> {
    Seq::new(n, |i: int| c)
}

/// The markers of the first `n` parts, each as often as its part is long.
pub open spec fn markers(lengths: Seq<nat>, n: nat) -> Seq<char>
    decreases n,
{
    if n == 0 {
        seq![]
    } else {
        markers(lengths, (n - 1) as nat) + times(marker(lengths.len(), n - 1), lengths[n - 1])
    }
}

/// The nine columns that say how an ordinal number is put together.
pub open spec fn mask_of(lengths: Seq<nat>) -> Seq<char> {
    pad_right(markers(lengths, lengths.len()), 9, ' ')
}

pub fn oz_mask(lengths: &[usize]) -> (r: String)
    requires
        lengths@.len() <= 6,
    ensures
        r@ == mask_of(nats(lengths@)),
{
    let table: [char; 6] = if lengths.len() == 6 {
        ['1', '2', '3', '4', 'P', 'I']
    } else {
        ['1', '2', '3', '4', '5', 'P']
    };
    let ghost all = nats(lengths@);
    let mut mask = String::new();
    let mut i: usize = 0;
    while i < lengths.len()
        invariant
            i <= lengths@.len() <= 6,
            all == nats(lengths@),
            forall|j: int|
                0 <= j < lengths@.len() ==> table@[j + 6 - lengths@.len()] == #[trigger] marker(
                    all.len(),
                    j,
                ),
            mask@ == markers(all, i as nat),
        decreases lengths@.len() - i,
    {
        let m = table[i + 6 - lengths.len()];
        assert(m == marker(all.len(), i as int));
        let run = repeated(m, lengths[i]);
        mask.append(run.as_str());
        assert(run@ =~= times(m, all[i as int]));
        i = i + 1;
    }
    padded_right(mask.as_str(), 9, ' ')
}

/// The parts of an ordinal number without the dots, filled up to nine columns.
pub open spec fn compact(oz: Seq<char>) -> Seq<char> {
    pad_right(join(split(oz, '.'), seq![]), 9, ' ')
}

pub open spec fn text_outcome(r: Result<String, Error>) -> Result<Seq<char>, Seq<char>> {
    match r {
        Ok(v) => Ok(v@),
        Err(e) => Err(e@),
    }
}

pub fn compact_oz(value: &str, lengths: &Vec<usize>) -> (r: Result<String, Error>)
    ensures
        text_outcome(r) == (if lengths_of(value@) == nats(lengths@) {
            Ok(compact(value@))
        } else {
            Err("OZ "@ + value@ + " entspricht nicht der ermittelten GAEB-90-OZ-Maske."@)
        }),
{
    let found = part_lengths(value);
    if !same_lengths(&found, lengths) {
        let message = "OZ ".to_owned().concat(value).concat(
            " entspricht nicht der ermittelten GAEB-90-OZ-Maske.",
        );
        return Err(Error { message });
    }
    let pieces = parts(value, '.');
    proof {
        reveal_strlit("");
    }
    assert(""@ =~= Seq::<char>::empty());
    let flat = joined(&pieces, "");
    Ok(padded_right(flat.as_str(), 9, ' '))
}

/// The digits of a price without sign and point, cut off behind `scale` decimal places.
pub open spec fn price_digits(value: Dec, scale: nat) -> Seq<char> {
    value.abs().whole_digits() + value.abs().fixed_fraction(scale)
}

/// The columns that are left for the digits of a price.
pub open spec fn price_room(value: Dec, width: nat) -> int {
    if value.mantissa < 0 {
        width - 1
    } else {
        width as int
    }
}

/// A price in `width` columns with `scale` implied decimal places.
pub open spec fn price_field(value: Dec, scale: nat, width: nat) -> Result<Seq<char>, Seq<char>> {
    let digits = price_digits(value, scale);
    if digits.len() > price_room(value, width) {
        Err(
            "Preis "@ + value.plain() + " überschreitet die Feldbreite des GAEB-90-Formats."@,
        )
    } else if value.mantissa < 0 {
        Ok(seq!['-'] + pad_left(digits, (width - 1) as nat, '0'))
    } else {
        Ok(pad_left(digits, width, '0'))
    }
}

pub proof fn lemma_fraction_digits(d: Dec)
    ensures
        all_digits(d.fraction_digits()),
{
    if d.scale > 0 {
        let n = magnitude(d.mantissa) % pow10(d.scale);
        lemma_digits(n);
        assert forall|i: int| 0 <= i < d.fraction_digits().len() implies is_digit(
            #[trigger] d.fraction_digits()[i],
        ) by {
            let f = digits(n);
            if f.len() < d.scale && i >= d.scale - f.len() {
                assert(d.fraction_digits()[i] == f[i - (d.scale - f.len())]);
            } else if f.len() >= d.scale {
                assert(d.fraction_digits()[i] == f[i]);
            }
        }
    }
}

pub proof fn lemma_price_digits(value: Dec, scale: nat)
    ensures
        all_digits(value.abs().whole_digits()),
        all_digits(value.abs().fixed_fraction(scale)),
        all_digits(price_digits(value, scale)),
{
    lemma_digits(magnitude(value.abs().mantissa) / pow10(value.scale));
    lemma_fraction_digits(value.abs());
    let w = value.abs().whole_digits();
    let f = value.abs().fixed_fraction(scale);
    assert forall|i: int| 0 <= i < f.len() implies is_digit(#[trigger] f[i]) by {}
    assert forall|i: int| 0 <= i < (w + f).len() implies is_digit(#[trigger] (w + f)[i]) by {
        if i < w.len() {
            assert((w + f)[i] == w[i]);
        } else {
            assert((w + f)[i] == f[i - w.len()]);
        }
    }
}

pub fn implied_price(value: Decimal, scale: usize, width: usize) -> (r: Result<String, Error>)
    requires
        0 < scale <= 28,
        0 < width <= 31,
    ensures
        text_outcome(r) == price_field(value@, scale as nat, width as nat),
{
    let negative = value.is_sign_negative();
    let size = value.abs();
    let available: usize = if negative {
        width - 1
    } else {
        width
    };
    let ghost whole = size@.whole_digits();
    let ghost fraction = size@.fixed_fraction(scale as nat);
    proof {
        lemma_price_digits(value@, scale as nat);
    }
    let plain = size.plain();
    let v = chars(plain.as_str());
    let whole_len: usize = next_position(&v, '.', 0);
    proof {
        assert(size@.sign() =~= Seq::<char>::empty());
        assert(v@.skip(0) =~= v@);
        assert forall|i: int| 0 <= i < whole.len() implies v@[i] != '.' by {
            assert(is_digit(whole[i]));
            assert(v@[i] == whole[i]);
        }
        if size@.scale == 0 {
            assert(v@ =~= whole);
        } else {
            assert(v@ =~= whole + seq!['.'] + size@.fraction_digits());
            assert(v@[whole.len() as int] == '.');
        }
        lemma_position_of(v@, '.', whole.len() as int);
    }
    assert(whole_len == whole.len());
    if whole_len > available || scale > available - whole_len {
        let message = "Preis ".to_owned().concat(value.plain().as_str()).concat(
            " überschreitet die Feldbreite des GAEB-90-Formats.",
        );
        return Err(Error { message });
    }
    let fixed = size.fixed(scale);
    let digits = replaced_dot(fixed.as_str());
    proof {
        assert(fixed@ =~= whole + seq!['.'] + fraction);
        let dot = seq!['.'];
        let none = Seq::<char>::empty();
        lemma_replace_char_concat(whole + dot, fraction, dot, none);
        lemma_replace_char_concat(whole, dot, dot, none);
        assert(!whole.contains('.')) by {
            if whole.contains('.') {
                let i = choose|i: int| 0 <= i < whole.len() && whole[i] == '.';
                assert(is_digit(whole[i]));
            }
        }
        assert(!fraction.contains('.')) by {
            if fraction.contains('.') {
                let i = choose|i: int| 0 <= i < fraction.len() && fraction[i] == '.';
                assert(is_digit(fraction[i]));
            }
        }
        lemma_replace_absent(whole, dot, none);
        lemma_replace_absent(fraction, dot, none);
        assert(dot.subrange(0, 1) =~= dot);
        assert(dot.skip(1) =~= none);
        assert(replace(none, dot, none) =~= none);
        assert(dot.is_prefix_of(dot));
        assert(replace(dot, dot, none) =~= none + replace(dot.skip(1), dot, none));
        assert(digits@ =~= whole + fraction);
        assert(digits@ == price_digits(value@, scale as nat));
    }
    if negative {
        let mut r = String::new();
        r.push('-');
        let rest = padded_left(digits.as_str(), available, '0');
        r.append(rest.as_str());
        assert(r@ =~= seq!['-'] + pad_left(digits@, (width - 1) as nat, '0'));
        Ok(r)
    } else {
        Ok(padded_left(digits.as_str(), width, '0'))
    }
}

fn replaced_dot(s: &str) -> (r: String)
    ensures
        r@ == replace(s@, seq!['.'], seq![]),
{
    proof {
        reveal_strlit(".");
        reveal_strlit("");
    }
    assert("."@ =~= seq!['.']);
    assert(""@ =~= Seq::<char>::empty());
    replaced(s, ".", "")
}

/// A record with the characters of a value laid over it, as far as the record reaches.
pub open spec fn overlaid(record: Seq<char>, offset: int, value: Seq<char>) -> Seq<char> {
    Seq::new(
        record.len(),
        |i: int|
            if offset <= i < offset + value.len() {
                value[i - offset]
            } else {
                record[i]
            },
    )
}

pub fn put(record: &mut Vec<char>, offset: usize, value: &str)
    ensures
        final(record)@ == overlaid(old(record)@, offset as int, value@),
{
    let v = chars(value);
    let len: usize = record.len();
    let ghost before = record@;
    let mut i: usize = 0;
    while i < v.len() && offset < len && i < len - offset
        invariant
            i <= v@.len(),
            offset + i <= len || i == 0,
            len == before.len(),
            record@ == overlaid(before, offset as int, v@.take(i as int)),
        decreases v@.len() - i,
    {
        record.set(offset + i, v[i]);
        i = i + 1;
        assert(record@ =~= overlaid(before, offset as int, v@.take(i as int)));
    }
    assert(record@ =~= overlaid(before, offset as int, v@));
}

/// One value of a record and the column it starts in.
pub struct Place {
    pub column: nat,
    pub value: Seq<char>,
}

/// A blank record of 74 columns with the values laid over it one after the other.
pub open spec fn filled(places: Seq<Place>) -> Seq<char>
    decreases places.len(),
{
    if places.len() == 0 {
        Seq::new(74, |i: int| ' ')
    } else {
        overlaid(
            filled(places.drop_last()),
            places.last().column as int,
            places.last().value,
        )
    }
}

pub open spec fn place_views(v: Seq<(usize, String)>) -> Seq<Place> {
    Seq::new(v.len(), |i: int| Place { column: v[i].0 as nat, value: v[i].1@ })
}

pub fn record_with(fields: &Vec<(usize, String)>) -> (r: Vec<char>)
    ensures
        r@ == filled(place_views(fields@)),
{
    let ghost all = place_views(fields@);
    let mut record: Vec<char> = Vec::new();
    let mut i: usize = 0;
    while i < 74
        invariant
            i <= 74,
            record@ == Seq::new(i as nat, |i: int| ' '),
        decreases 74 - i,
    {
        record.push(' ');
        assert(record@ =~= Seq::new((i + 1) as nat, |i: int| ' '));
        i = i + 1;
    }
    let mut i: usize = 0;
    assert(all.take(0) =~= Seq::<Place>::empty());
    while i < fields.len()
        invariant
            i <= fields@.len(),
            all == place_views(fields@),
            record@ == filled(all.take(i as int)),
        decreases fields@.len() - i,
    {
        put(&mut record, fields[i].0, fields[i].1.as_str());
        assert(all.take(i + 1).drop_last() =~= all.take(i as int));
        assert(all.take(i + 1).last() == all[i as int]);
        i = i + 1;
    }
    assert(all.take(i as int) =~= all);
    record
}

/// The first `length` characters of a text.
pub open spec fn cut(value: Seq<char>, length: nat) -> Seq<char> {
    if value.len() <= length {
        value
    } else {
        value.take(length as int)
    }
}

pub fn truncate(value: &str, length: usize) -> (r: String)
    ensures
        r@ == cut(value@, length as nat),
{
    let v = chars(value);
    if v.len() <= length {
        value.to_owned()
    } else {
        let r = slice(&v, 0, length);
        assert(r@ =~= value@.take(length as int));
        r
    }
}

/// The text, or a fallback where it is blank.
pub open spec fn or_else(value: Seq<char>, fallback: Seq<char>) -> Seq<char> {
    if trim(value).len() == 0 {
        fallback
    } else {
        value
    }
}

pub fn text_or(value: &str, fallback: &str) -> (r: String)
    ensures
        r@ == or_else(value@, fallback@),
{
    if trimmed(value).as_str().is_empty() {
        fallback.to_owned()
    } else {
        value.to_owned()
    }
}

pub open spec fn header_record(lengths: Seq<nat>) -> Seq<char> {
    filled(
        seq![
            Place { column: 0, value: "00"@ },
            Place { column: 10, value: "84"@ },
            Place { column: 62, value: mask_of(lengths) },
            Place { column: 71, value: "90"@ },
        ],
    )
}

pub open spec fn project_record(document: DocumentView, date: Seq<char>) -> Seq<char> {
    filled(
        seq![
            Place { column: 0, value: "01"@ },
            Place { column: 2, value: cut(or_else(document.project, "GAEB-Angebot"@), 40) },
            Place { column: 42, value: date },
            Place { column: 68, value: "X"@ },
        ],
    )
}

pub open spec fn boq_record(document: DocumentView) -> Seq<char> {
    filled(
        seq![Place { column: 0, value: "02"@ }, Place { column: 2, value: cut(document.boq, 70) }],
    )
}

pub open spec fn currency_record(document: DocumentView) -> Seq<char> {
    let currency = or_else(document.currency, "EUR"@);
    filled(
        seq![
            Place { column: 0, value: "08"@ },
            Place { column: 2, value: currency },
            Place { column: 6, value: currency },
        ],
    )
}

pub open spec fn price_record(oz: Seq<char>, ep: Seq<char>, gb: Seq<char>) -> Seq<char> {
    filled(
        seq![
            Place { column: 0, value: "23"@ },
            Place { column: 2, value: compact(oz) },
            Place { column: 13, value: ep },
            Place { column: 25, value: gb },
        ],
    )
}

pub open spec fn end_record(count: nat) -> Seq<char> {
    filled(
        seq![
            Place { column: 0, value: "99"@ },
            Place { column: 2, value: pad_left(digits(count), 7, '0') },
        ],
    )
}

/// The price records of the first `n` items, or the error of the first price that is
/// too wide.
pub open spec fn price_records(items: Seq<ItemView>, n: nat) -> Result<Seq<Seq<char>>, Seq<char>>
    decreases n,
{
    if n == 0 {
        Ok(seq![])
    } else {
        match price_records(items, (n - 1) as nat) {
            Err(e) => Err(e),
            Ok(records) => {
                let item = items[n - 1];
                match price_field(item.unit_price->0, 3, 11) {
                    Err(e) => Err(e),
                    Ok(ep) => match price_field(item.total_price->0, 2, 12) {
                        Err(e) => Err(e),
                        Ok(gb) => Ok(records.push(price_record(item.oz, ep, gb))),
                    },
                }
            },
        }
    }
}

/// A record with its number in the last six columns, as a line of the file.
pub open spec fn record_line(record: Seq<char>, n: nat) -> Seq<u8> {
    cp850_bytes(record + pad_left(digits(n), 6, '0')) + seq![0x0du8, 0x0au8]
}

/// The lines of the first `n` records.
pub open spec fn record_lines(records: Seq<Seq<char>>, n: nat) -> Seq<u8>
    decreases n,
{
    if n == 0 {
        seq![]
    } else {
        record_lines(records, (n - 1) as nat) + record_line(records[n - 1], n)
    }
}

/// The records of an offer in front of the prices.
pub open spec fn head_records(document: DocumentView, date: Seq<char>, lengths: Seq<nat>) -> Seq<
    Seq<char>,
> {
    seq![
        header_record(lengths),
        project_record(document, date),
        boq_record(document),
        currency_record(document),
    ]
}

/// Whether every item has both prices.
pub open spec fn fully_priced(items: Seq<ItemView>) -> bool {
    forall|i: int|
        0 <= i < items.len() ==> (#[trigger] items[i]).unit_price is Some && items[i].total_price is Some
}

/// The bytes of the offer that a document makes, or why it makes none.
pub open spec fn d84(document: DocumentView, moment: MomentView) -> Result<Seq<u8>, Seq<char>> {
    let items = items_of(document.rows);
    if items.len() == 0 {
        Err("Die GAEB-Datei enthält keine Positionen für eine D84."@)
    } else if !fully_priced(items) {
        Err("D84 benötigt für jede Position einen Einheits- und Gesamtpreis."@)
    } else {
        match shared_lengths(items) {
            Err(e) => Err(e),
            Ok(lengths) => match price_records(items, items.len()) {
                Err(e) => Err(e),
                Ok(prices) => {
                    let records = head_records(document, moment.short_date(), lengths) + prices + seq![
                        end_record(items.len()),
                    ];
                    Ok(record_lines(records, records.len()))
                },
            },
        }
    }
}

pub broadcast proof fn lemma_filled_len(places: Seq<Place>)
    ensures
        (#[trigger] filled(places)).len() == 74,
    decreases places.len(),
{
    if places.len() > 0 {
        lemma_filled_len(places.drop_last());
    }
}

pub proof fn lemma_filled_ascii(places: Seq<Place>)
    requires
        forall|i: int| 0 <= i < places.len() ==> is_ascii_chars((#[trigger] places[i]).value),
    ensures
        is_ascii_chars(filled(places)),
    decreases places.len(),
{
    if places.len() > 0 {
        lemma_filled_ascii(places.drop_last());
        let value = places.last().value;
        assert(is_ascii_chars(places[places.len() - 1].value));
        let before = filled(places.drop_last());
        let all = filled(places);
        assert forall|i: int| 0 <= i < all.len() implies '\0' <= #[trigger] all[i] <= '\u{7f}' by {
            let at = places.last().column as int;
            if at <= i < at + value.len() {
                assert(all[i] == value[i - at]);
            } else {
                assert(all[i] == before[i]);
            }
        }
    }
}

pub proof fn lemma_markers(lengths: Seq<nat>, n: nat)
    requires
        n <= lengths.len() <= 6,
    ensures
        is_ascii_chars(markers(lengths, n)),
        markers(lengths, n).len() == total(lengths.take(n as int)),
    decreases n,
{
    if n > 0 {
        lemma_markers(lengths, (n - 1) as nat);
        assert(lengths.take(n as int).drop_last() =~= lengths.take(n - 1));
        let front = markers(lengths, (n - 1) as nat);
        let back = times(marker(lengths.len(), n - 1), lengths[n - 1]);
        assert forall|i: int| 0 <= i < (front + back).len() implies '\0' <= #[trigger] (front + back)[i] <= '\u{7f}' by {
            if i < front.len() {
                assert((front + back)[i] == front[i]);
            }
        }
    } else {
        assert(lengths.take(0) =~= Seq::<nat>::empty());
    }
}

pub proof fn lemma_mask(lengths: Seq<nat>)
    requires
        lengths.len() <= 6,
        total(lengths) <= 9,
    ensures
        mask_of(lengths).len() == 9,
        is_ascii_chars(mask_of(lengths)),
{
    lemma_markers(lengths, lengths.len());
    assert(lengths.take(lengths.len() as int) =~= lengths);
    let m = markers(lengths, lengths.len());
    assert forall|i: int| 0 <= i < mask_of(lengths).len() implies '\0' <= #[trigger] mask_of(
        lengths,
    )[i] <= '\u{7f}' by {
        if i < m.len() {
            assert(mask_of(lengths)[i] == m[i]);
        }
    }
}

pub proof fn lemma_pad_left_ascii(s: Seq<char>, width: nat, fill: char)
    requires
        is_ascii_chars(s),
        (fill as u32) < 0x80,
    ensures
        is_ascii_chars(pad_left(s, width, fill)),
{
    let p = pad_left(s, width, fill);
    assert forall|i: int| 0 <= i < p.len() implies '\0' <= #[trigger] p[i] <= '\u{7f}' by {
        if s.len() < width {
            if i >= width - s.len() {
                assert(p[i] == s[i - (width - s.len())]);
            }
        } else {
            assert(p[i] == s[i]);
        }
    }
}

pub proof fn lemma_digits_ascii(s: Seq<char>)
    requires
        all_digits(s),
    ensures
        is_ascii_chars(s),
{
    assert forall|i: int| 0 <= i < s.len() implies '\0' <= #[trigger] s[i] <= '\u{7f}' by {
        assert(is_digit(s[i]));
    }
}

pub proof fn lemma_price_field_ascii(value: Dec, scale: nat, width: nat)
    requires
        width > 0,
        price_field(value, scale, width) is Ok,
    ensures
        is_ascii_chars(price_field(value, scale, width)->Ok_0),
        price_field(value, scale, width)->Ok_0.len() == width,
{
    lemma_price_digits(value, scale);
    lemma_digits_ascii(price_digits(value, scale));
    lemma_pad_left_ascii(price_digits(value, scale), width, '0');
    lemma_pad_left_ascii(price_digits(value, scale), (width - 1) as nat, '0');
    if value.mantissa < 0 {
        let rest = pad_left(price_digits(value, scale), (width - 1) as nat, '0');
        let all = seq!['-'] + rest;
        assert forall|i: int| 0 <= i < all.len() implies '\0' <= #[trigger] all[i] <= '\u{7f}' by {
            if i > 0 {
                assert(all[i] == rest[i - 1]);
            }
        }
    }
}

/// Putting numeric parts together leaves nothing but digits.
pub proof fn lemma_join_digits(p: Seq<Seq<char>>)
    requires
        forall|i: int| 0 <= i < p.len() ==> all_digits(#[trigger] p[i]),
    ensures
        all_digits(join(p, seq![])),
    decreases p.len(),
{
    if p.len() == 1 {
        assert(all_digits(p[0]));
    } else if p.len() > 1 {
        lemma_join_digits(p.drop_last());
        let front = join(p.drop_last(), seq![]);
        let all = join(p, seq![]);
        assert(all_digits(p[p.len() - 1]));
        assert(all =~= front + p.last());
        assert forall|i: int| 0 <= i < all.len() implies is_digit(#[trigger] all[i]) by {
            if i < front.len() {
                assert(all[i] == front[i]);
            } else {
                assert(all[i] == p.last()[i - front.len()]);
            }
        }
    }
}

pub proof fn lemma_compact_ascii(oz: Seq<char>)
    requires
        numeric(oz),
    ensures
        is_ascii_chars(compact(oz)),
{
    lemma_join_digits(split(oz, '.'));
    let flat = join(split(oz, '.'), seq![]);
    lemma_digits_ascii(flat);
    assert forall|i: int| 0 <= i < compact(oz).len() implies '\0' <= #[trigger] compact(oz)[i] <= '\u{7f}' by {
        if i < flat.len() {
            assert(compact(oz)[i] == flat[i]);
        }
    }
}

pub proof fn lemma_header_record_ascii(lengths: Seq<nat>)
    requires
        lengths.len() <= 6,
        total(lengths) <= 9,
    ensures
        is_ascii_chars(header_record(lengths)),
{
    lemma_mask(lengths);
    reveal_strlit("00");
    reveal_strlit("84");
    reveal_strlit("90");
    lemma_filled_ascii(
        seq![
            Place { column: 0, value: "00"@ },
            Place { column: 10, value: "84"@ },
            Place { column: 62, value: mask_of(lengths) },
            Place { column: 71, value: "90"@ },
        ],
    );
}

pub proof fn lemma_price_record_ascii(oz: Seq<char>, ep: Seq<char>, gb: Seq<char>)
    requires
        numeric(oz),
        is_ascii_chars(ep),
        is_ascii_chars(gb),
    ensures
        is_ascii_chars(price_record(oz, ep, gb)),
{
    lemma_compact_ascii(oz);
    reveal_strlit("23");
    lemma_filled_ascii(
        seq![
            Place { column: 0, value: "23"@ },
            Place { column: 2, value: compact(oz) },
            Place { column: 13, value: ep },
            Place { column: 25, value: gb },
        ],
    );
}

pub proof fn lemma_end_record_ascii(count: nat)
    ensures
        is_ascii_chars(end_record(count)),
{
    lemma_digits(count);
    lemma_digits_ascii(digits(count));
    lemma_pad_left_ascii(digits(count), 7, '0');
    reveal_strlit("99");
    lemma_filled_ascii(
        seq![
            Place { column: 0, value: "99"@ },
            Place { column: 2, value: pad_left(digits(count), 7, '0') },
        ],
    );
}

fn line_of(record: &Vec<char>, n: usize) -> (r: Vec<u8>)
    ensures
        r@ == record_line(record@, n as nat),
{
    let count = number(n as u64);
    let sequence = padded_left(count.as_str(), 6, '0');
    let text = slice(record, 0, record.len());
    assert(text@ =~= record@);
    let text = text.concat(sequence.as_str());
    let mut r = encode_cp850(text.as_str());
    r.push(0x0d);
    r.push(0x0a);
    assert(r@ =~= record_line(record@, n as nat));
    r
}

fn append_bytes(target: &mut Vec<u8>, bytes: &[u8])
    ensures
        final(target)@ == old(target)@ + bytes@,
{
    let ghost before = target@;
    let mut i: usize = 0;
    while i < bytes.len()
        invariant
            i <= bytes@.len(),
            target@ == before + bytes@.take(i as int),
        decreases bytes@.len() - i,
    {
        target.push(bytes[i]);
        i = i + 1;
        assert(target@ =~= before + bytes@.take(i as int));
    }
    assert(bytes@.take(i as int) =~= bytes@);
}

pub open spec fn record_views(v: Seq<Vec<char>>) -> Seq<Seq<char>> {
    Seq::new(v.len(), |i: int| v[i]@)
}

fn push_record(records: &mut Vec<Vec<char>>, fields: Vec<(usize, String)>)
    ensures
        record_views(final(records)@) == record_views(old(records)@).push(filled(place_views(fields@))),
{
    let record = record_with(&fields);
    let ghost before = records@;
    records.push(record);
    assert(record_views(records@) =~= record_views(before).push(record@));
}

fn entry(column: usize, value: &str) -> (r: (usize, String))
    ensures
        r.0 == column,
        r.1@ == value@,
{
    (column, value.to_owned())
}

pub fn all_priced(items: &Vec<GaebItem>) -> (r: bool)
    ensures
        r == fully_priced(item_views(items@)),
{
    let ghost all = item_views(items@);
    let mut i: usize = 0;
    while i < items.len()
        invariant
            i <= items@.len(),
            all == item_views(items@),
            forall|j: int|
                0 <= j < i ==> (#[trigger] all[j]).unit_price is Some && all[j].total_price is Some,
        decreases items@.len() - i,
    {
        assert(all[i as int] == items@[i as int]@);
        if items[i].unit_price.is_none() || items[i].total_price.is_none() {
            return false;
        }
        i = i + 1;
    }
    true
}

pub open spec fn bytes_outcome(r: Result<Vec<u8>, Error>) -> Result<Seq<u8>, Seq<char>> {
    match r {
        Ok(v) => Ok(v@),
        Err(e) => Err(e@),
    }
}

/// Writes an offer in GAEB 90 with the ordinal number and the prices of every item.
pub fn write_d84(document: &GaebDocument, moment: &Moment) -> (r: Result<Vec<u8>, Error>)
    ensures
        bytes_outcome(r) == d84(document@, moment@),
{
    let found = items(&document.rows);
    let ghost all = item_views(found@);
    assert(all.len() == found@.len());
    if found.len() == 0 {
        return Err(failure("Die GAEB-Datei enthält keine Positionen für eine D84."));
    }
    if !all_priced(&found) {
        return Err(failure("D84 benötigt für jede Position einen Einheits- und Gesamtpreis."));
    }
    let lengths = match oz_part_lengths(found.as_slice()) {
        Ok(lengths) => lengths,
        Err(e) => {
            return Err(e);
        },
    };
    let ghost ls = nats(lengths@);
    assert(lengths@.len() == ls.len());
    let mask = oz_mask(lengths.as_slice());
    let date = moment.short_date();
    let mut records: Vec<Vec<char>> = Vec::new();
    let fields = vec![entry(0, "00"), entry(10, "84"), entry(62, mask.as_str()), entry(71, "90")];
    assert(filled(place_views(fields@)) == header_record(ls)) by {
        assert(place_views(fields@) =~= seq![
            Place { column: 0, value: "00"@ },
            Place { column: 10, value: "84"@ },
            Place { column: 62, value: mask_of(ls) },
            Place { column: 71, value: "90"@ },
        ]);
    }
    push_record(&mut records, fields);
    let project = text_or(document.project.as_str(), "GAEB-Angebot");
    let project = truncate(project.as_str(), 40);
    let fields = vec![
        entry(0, "01"),
        entry(2, project.as_str()),
        entry(42, date.as_str()),
        entry(68, "X"),
    ];
    assert(filled(place_views(fields@)) == project_record(document@, moment@.short_date())) by {
        assert(place_views(fields@) =~= seq![
            Place { column: 0, value: "01"@ },
            Place { column: 2, value: cut(or_else(document@.project, "GAEB-Angebot"@), 40) },
            Place { column: 42, value: moment@.short_date() },
            Place { column: 68, value: "X"@ },
        ]);
    }
    push_record(&mut records, fields);
    let name = truncate(document.boq.as_str(), 70);
    let fields = vec![entry(0, "02"), entry(2, name.as_str())];
    assert(filled(place_views(fields@)) == boq_record(document@)) by {
        assert(place_views(fields@) =~= seq![
            Place { column: 0, value: "02"@ },
            Place { column: 2, value: cut(document@.boq, 70) },
        ]);
    }
    push_record(&mut records, fields);
    let currency = text_or(document.currency.as_str(), "EUR");
    let fields = vec![entry(0, "08"), entry(2, currency.as_str()), entry(6, currency.as_str())];
    assert(filled(place_views(fields@)) == currency_record(document@)) by {
        assert(place_views(fields@) =~= seq![
            Place { column: 0, value: "08"@ },
            Place { column: 2, value: currency@ },
            Place { column: 6, value: currency@ },
        ]);
    }
    push_record(&mut records, fields);
    let ghost head = head_records(document@, moment@.short_date(), ls);
    assert(record_views(records@) =~= head);
    let mut i: usize = 0;
    assert(head + Seq::<Seq<char>>::empty() =~= head);
    while i < found.len()
        invariant
            i <= found@.len(),
            all == item_views(found@),
            fully_priced(all),
            shared_lengths(all) == Ok::<Seq<nat>, Seq<char>>(ls),
            ls == nats(lengths@),
            price_records(all, i as nat) is Ok,
            record_views(records@) == head + price_records(all, i as nat)->Ok_0,
            all == items_of(document@.rows),
            all.len() > 0,
        decreases found@.len() - i,
    {
        let ghost before = record_views(records@);
        assert(all[i as int] == found@[i as int]@);
        let item = &found[i];
        assert(lengths_of(all[i as int].oz) == ls);
        assert(numeric(all[i as int].oz));
        let compacted = match compact_oz(item.oz.as_str(), &lengths) {
            Ok(v) => v,
            Err(e) => {
                return Err(e);
            },
        };
        let (ep, gb) = match (item.unit_price, item.total_price) {
            (Some(ep), Some(gb)) => (ep, gb),
            _ => {
                return Err(failure(""));
            },
        };
        let ep = match implied_price(ep, 3, 11) {
            Ok(v) => v,
            Err(e) => {
                proof {
                    lemma_price_error(all, i as nat, all.len());
                }
                return Err(e);
            },
        };
        let gb = match implied_price(gb, 2, 12) {
            Ok(v) => v,
            Err(e) => {
                proof {
                    lemma_price_error(all, i as nat, all.len());
                }
                return Err(e);
            },
        };
        let fields = vec![
            entry(0, "23"),
            entry(2, compacted.as_str()),
            entry(13, ep.as_str()),
            entry(25, gb.as_str()),
        ];
        assert(filled(place_views(fields@)) == price_record(item.oz@, ep@, gb@)) by {
            assert(place_views(fields@) =~= seq![
                Place { column: 0, value: "23"@ },
                Place { column: 2, value: compact(item.oz@) },
                Place { column: 13, value: ep@ },
                Place { column: 25, value: gb@ },
            ]);
        }
        push_record(&mut records, fields);
        proof {
            assert(record_views(records@) =~= head + price_records(all, (i + 1) as nat)->Ok_0);
        }
        i = i + 1;
    }
    let count = number(found.len() as u64);
    let count = padded_left(count.as_str(), 7, '0');
    let fields = vec![entry(0, "99"), entry(2, count.as_str())];
    assert(filled(place_views(fields@)) == end_record(all.len())) by {
        assert(place_views(fields@) =~= seq![
            Place { column: 0, value: "99"@ },
            Place { column: 2, value: pad_left(digits(all.len()), 7, '0') },
        ]);
    }
    push_record(&mut records, fields);
    let ghost rows = head + price_records(all, all.len())->Ok_0 + seq![end_record(all.len())];
    assert(record_views(records@) =~= rows);
    assert(records@.len() == rows.len());
    let mut output: Vec<u8> = Vec::new();
    let mut i: usize = 0;
    while i < records.len()
        invariant
            i <= records@.len(),
            records@.len() == rows.len(),
            rows == record_views(records@),
            output@ == record_lines(rows, i as nat),
        decreases records@.len() - i,
    {
        assert(rows[i as int] == records@[i as int]@);
        let line = line_of(&records[i], i + 1);
        append_bytes(&mut output, line.as_slice());
        i = i + 1;
    }
    Ok(output)
}

/// Once a price is too wide, its error stays.
proof fn lemma_price_error(items: Seq<ItemView>, i: nat, n: nat)
    requires
        i < n <= items.len(),
        price_records(items, i + 1) is Err,
    ensures
        price_records(items, n) == price_records(items, i + 1),
    decreases n,
{
    if n > i + 1 {
        lemma_price_error(items, i, (n - 1) as nat);
    }
}

} // verus!
