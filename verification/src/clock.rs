//! Dates and times as the exchange formats write them.

use crate::text::{all_digits, digits, digits_value, is_digit, number, pad_left, padded_left};
use vstd::prelude::*;

verus! {

/// A moment of the calendar, to the second.
#[derive(Clone, Copy, Debug)]
pub struct Moment {
    year: u16,
    month: u8,
    day: u8,
    hour: u8,
    minute: u8,
    second: u8,
}

/// What a moment is.
pub struct MomentView {
    pub year: nat,
    pub month: nat,
    pub day: nat,
    pub hour: nat,
    pub minute: nat,
    pub second: nat,
}

/// Two digits of a number below a hundred.
pub open spec fn two(n: nat) -> Seq<char> {
    pad_left(digits(n), 2, '0')
}

/// Four digits of a number below ten thousand.
pub open spec fn four(n: nat) -> Seq<char> {
    pad_left(digits(n), 4, '0')
}

impl MomentView {
    pub open spec fn valid(self) -> bool {
        &&& self.year <= 9999
        &&& 1 <= self.month <= 12
        &&& 1 <= self.day <= 31
        &&& self.hour <= 23
        &&& self.minute <= 59
        &&& self.second <= 60
    }

    /// Day, month and the last two digits of the year.
    pub open spec fn short_date(self) -> Seq<char> {
        two(self.day) + seq!['.'] + two(self.month) + seq!['.'] + two(self.year % 100)
    }

    /// Day, month and year.
    pub open spec fn long_date(self) -> Seq<char> {
        two(self.day) + seq!['.'] + two(self.month) + seq!['.'] + four(self.year)
    }

    /// Hour and minute.
    pub open spec fn short_time(self) -> Seq<char> {
        two(self.hour) + seq![':'] + two(self.minute)
    }

    /// Year, month and day.
    pub open spec fn iso_date(self) -> Seq<char> {
        four(self.year) + seq!['-'] + two(self.month) + seq!['-'] + two(self.day)
    }

    /// Hour, minute and second.
    pub open spec fn iso_time(self) -> Seq<char> {
        two(self.hour) + seq![':'] + two(self.minute) + seq![':'] + two(self.second)
    }
}

impl View for Moment {
    type V = MomentView;

    closed spec fn view(&self) -> MomentView {
        MomentView {
            year: self.year as nat,
            month: self.month as nat,
            day: self.day as nat,
            hour: self.hour as nat,
            minute: self.minute as nat,
            second: self.second as nat,
        }
    }
}

fn two_digits(n: u16) -> (r: String)
    ensures
        r@ == two(n as nat),
{
    let d = number(n as u64);
    padded_left(d.as_str(), 2, '0')
}

fn four_digits(n: u16) -> (r: String)
    ensures
        r@ == four(n as nat),
{
    let d = number(n as u64);
    padded_left(d.as_str(), 4, '0')
}

fn three_parts(a: String, b: String, c: String, separator: char) -> (r: String)
    ensures
        r@ == a@ + seq![separator] + b@ + seq![separator] + c@,
{
    let mut r = a;
    r.push(separator);
    r.append(b.as_str());
    r.push(separator);
    r.append(c.as_str());
    assert(r@ =~= a@ + seq![separator] + b@ + seq![separator] + c@);
    r
}

impl Moment {
    #[verifier::type_invariant]
    spec fn on_the_calendar(self) -> bool {
        self@.valid()
    }

    /// The moment with these parts, if they are in range.
    pub fn new(year: u16, month: u8, day: u8, hour: u8, minute: u8, second: u8) -> (r: Option<Moment>)
        ensures
            ({
                let v = MomentView {
                    year: year as nat,
                    month: month as nat,
                    day: day as nat,
                    hour: hour as nat,
                    minute: minute as nat,
                    second: second as nat,
                };
                match r {
                    Some(m) => v.valid() && m@ == v,
                    None => !v.valid(),
                }
            }),
    {
        if year <= 9999 && month >= 1 && month <= 12 && day >= 1 && day <= 31 && hour <= 23
            && minute <= 59 && second <= 60 {
            Some(Moment { year, month, day, hour, minute, second })
        } else {
            None
        }
    }

    pub fn short_date(&self) -> (r: String)
        ensures
            r@ == self@.short_date(),
    {
        three_parts(
            two_digits(self.day as u16),
            two_digits(self.month as u16),
            two_digits(self.year % 100),
            '.',
        )
    }

    pub fn long_date(&self) -> (r: String)
        ensures
            r@ == self@.long_date(),
    {
        three_parts(
            two_digits(self.day as u16),
            two_digits(self.month as u16),
            four_digits(self.year),
            '.',
        )
    }

    pub fn short_time(&self) -> (r: String)
        ensures
            r@ == self@.short_time(),
    {
        let mut r = two_digits(self.hour as u16);
        r.push(':');
        let minute = two_digits(self.minute as u16);
        r.append(minute.as_str());
        assert(r@ =~= self@.short_time());
        r
    }

    pub fn iso_date(&self) -> (r: String)
        ensures
            r@ == self@.iso_date(),
    {
        three_parts(
            four_digits(self.year),
            two_digits(self.month as u16),
            two_digits(self.day as u16),
            '-',
        )
    }

    pub fn iso_time(&self) -> (r: String)
        ensures
            r@ == self@.iso_time(),
    {
        three_parts(
            two_digits(self.hour as u16),
            two_digits(self.minute as u16),
            two_digits(self.second as u16),
            ':',
        )
    }
}

pub proof fn lemma_two(n: nat)
    requires
        n < 100,
    ensures
        two(n).len() == 2,
        all_digits(two(n)),
{
    reveal_with_fuel(digits, 3);
    assert(two(n).len() == 2);
    assert(is_digit(two(n)[0]));
    assert(is_digit(two(n)[1]));
}

/// A short date is eight ASCII characters.
pub proof fn lemma_short_date(m: MomentView)
    requires
        m.valid(),
    ensures
        m.short_date().len() == 8,
        vstd::utf8::is_ascii_chars(m.short_date()),
        !m.short_date().contains('\n'),
{
    lemma_two(m.day);
    lemma_two(m.month);
    lemma_two(m.year % 100);
    let d = m.short_date();
    assert forall|i: int| 0 <= i < 8 implies is_digit(#[trigger] d[i]) || d[i] == '.' by {
        if i < 2 {
            assert(d[i] == two(m.day)[i]);
        } else if 3 <= i < 5 {
            assert(d[i] == two(m.month)[i - 3]);
        } else if 6 <= i {
            assert(d[i] == two(m.year % 100)[i - 6]);
        }
    }
}

proof fn lemma_two_value(n: nat)
    requires
        n < 100,
    ensures
        two(n).len() == 2,
        all_digits(two(n)),
        digits_value(two(n)) == n,
{
    lemma_two(n);
    reveal_with_fuel(digits, 3);
    reveal_with_fuel(digits_value, 3);
    let t = two(n);
    assert(t.drop_last().drop_last() =~= Seq::<char>::empty());
    assert(t.drop_last().last() == t[0]);
}

proof fn lemma_four_value(n: nat)
    requires
        n < 10000,
    ensures
        four(n).len() == 4,
        all_digits(four(n)),
        digits_value(four(n)) == n,
{
    reveal_with_fuel(digits, 5);
    reveal_with_fuel(digits_value, 5);
    let t = four(n);
    assert(t.len() == 4);
    assert(is_digit(t[0]) && is_digit(t[1]) && is_digit(t[2]) && is_digit(t[3]));
    assert(t.drop_last().drop_last().drop_last().drop_last() =~= Seq::<char>::empty());
    assert(t.drop_last().last() == t[2]);
    assert(t.drop_last().drop_last().last() == t[1]);
    assert(t.drop_last().drop_last().drop_last().last() == t[0]);
}

/// Whether the characters of a text from `from` to before `to` are digits with this value.
pub open spec fn shows(s: Seq<char>, from: int, to: int, n: nat) -> bool {
    &&& 0 <= from <= to <= s.len()
    &&& all_digits(s.subrange(from, to))
    &&& digits_value(s.subrange(from, to)) == n
}

/// Dates and times show day, month, year, hour, minute and second in their places, with
/// zeros in front: `dd.mm.yy`, `dd.mm.yyyy`, `yyyy-mm-dd`, `hh:mm` and `hh:mm:ss`.
pub proof fn law_dates_and_times(m: MomentView)
    requires
        m.valid(),
    ensures
        ({
            let s = m.short_date();
            &&& s.len() == 8 && s[2] == '.' && s[5] == '.'
            &&& shows(s, 0, 2, m.day) && shows(s, 3, 5, m.month)
            &&& shows(s, 6, 8, m.year % 100)
        }),
        ({
            let s = m.long_date();
            &&& s.len() == 10 && s[2] == '.' && s[5] == '.'
            &&& shows(s, 0, 2, m.day) && shows(s, 3, 5, m.month) && shows(s, 6, 10, m.year)
        }),
        ({
            let s = m.iso_date();
            &&& s.len() == 10 && s[4] == '-' && s[7] == '-'
            &&& shows(s, 0, 4, m.year) && shows(s, 5, 7, m.month) && shows(s, 8, 10, m.day)
        }),
        ({
            let s = m.short_time();
            &&& s.len() == 5 && s[2] == ':'
            &&& shows(s, 0, 2, m.hour) && shows(s, 3, 5, m.minute)
        }),
        ({
            let s = m.iso_time();
            &&& s.len() == 8 && s[2] == ':' && s[5] == ':'
            &&& shows(s, 0, 2, m.hour) && shows(s, 3, 5, m.minute) && shows(s, 6, 8, m.second)
        }),
{
    lemma_two_value(m.day);
    lemma_two_value(m.month);
    lemma_two_value(m.year % 100);
    lemma_four_value(m.year);
    lemma_two_value(m.hour);
    lemma_two_value(m.minute);
    lemma_two_value(m.second);
    let a = m.short_date();
    assert(a.subrange(0, 2) =~= two(m.day));
    assert(a.subrange(3, 5) =~= two(m.month));
    assert(a.subrange(6, 8) =~= two(m.year % 100));
    let b = m.long_date();
    assert(b.subrange(0, 2) =~= two(m.day));
    assert(b.subrange(3, 5) =~= two(m.month));
    assert(b.subrange(6, 10) =~= four(m.year));
    let c = m.iso_date();
    assert(c.subrange(0, 4) =~= four(m.year));
    assert(c.subrange(5, 7) =~= two(m.month));
    assert(c.subrange(8, 10) =~= two(m.day));
    let d = m.short_time();
    assert(d.subrange(0, 2) =~= two(m.hour));
    assert(d.subrange(3, 5) =~= two(m.minute));
    let e = m.iso_time();
    assert(e.subrange(0, 2) =~= two(m.hour));
    assert(e.subrange(3, 5) =~= two(m.minute));
    assert(e.subrange(6, 8) =~= two(m.second));
}

} // verus!
