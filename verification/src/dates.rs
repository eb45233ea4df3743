use vstd::prelude::*;

verus! {

use crate::money::{dec_digits, push_dec};
use crate::textutil::push_char;

/// A calendar date as plain year, month and day values.
#[derive(Clone, Copy, Debug, PartialEq, Eq, Structural)]
pub struct Date {
    pub year: u16,
    pub month: u8,
    pub day: u8,
}

impl Date {
    /// A date is valid when its fields lie in the ranges that an ISO
    /// `YYYY-MM-DD` rendering can carry.
    pub open spec fn valid(self) -> bool {
        1 <= self.year <= 9999 && 1 <= self.month <= 12 && 1 <= self.day <= 31
    }
}

/// Leap years of the Gregorian calendar.
pub open spec fn is_leap_year(y: int) -> bool {
    y % 4 == 0 && (y % 100 != 0 || y % 400 == 0)
}

/// The number of days of month `m` in year `y`.
pub open spec fn spec_days_in_month(y: int, m: int) -> int {
    if m == 2 {
        if is_leap_year(y) {
            29
        } else {
            28
        }
    } else if m == 4 || m == 6 || m == 9 || m == 11 {
        30
    } else {
        31
    }
}

/// The date one calendar month earlier: the month number goes down by
/// one (December of the previous year from January), and the day is
/// clamped to the length of the target month. At the calendar's lower
/// edge, January of year one, the date keeps its day in month one.
pub open spec fn spec_one_month_before(d: Date) -> Date {
    if d.month > 1 {
        let m = (d.month - 1) as u8;
        let lim = spec_days_in_month(d.year as int, m as int);
        Date {
            year: d.year,
            month: m,
            day: if d.day as int <= lim {
                d.day
            } else {
                lim as u8
            },
        }
    } else if d.year > 1 {
        Date { year: (d.year - 1) as u16, month: 12, day: d.day }
    } else {
        d
    }
}

/// A run of `k` zero characters.
pub open spec fn zeros(k: int) -> Seq<char>
    decreases k,
{
    if k <= 0 {
        Seq::empty()
    } else {
        zeros(k - 1).push('0')
    }
}

/// The decimal digits of `n`, left-padded with zeros to width `w`.
pub open spec fn padded(n: int, w: int) -> Seq<char> {
    zeros(w - dec_digits(n).len()) + dec_digits(n)
}

/// The ISO `YYYY-MM-DD` rendering of a date.
pub open spec fn iso_date(d: Date) -> Seq<char> {
    padded(d.year as int, 4) + seq!['-'] + padded(d.month as int, 2) + seq!['-'] + padded(
        d.day as int,
        2,
    )
}

/// The number of days of month `m` in year `y`.
pub fn days_in_month(y: u16, m: u8) -> (r: u8)
    ensures
        r == spec_days_in_month(y as int, m as int),
        1 <= r <= 31,
{
    if m == 2 {
        if y % 4 == 0 && (y % 100 != 0 || y % 400 == 0) {
            29
        } else {
            28
        }
    } else if m == 4 || m == 6 || m == 9 || m == 11 {
        30
    } else {
        31
    }
}

/// The date one calendar month earlier, as `spec_one_month_before`
/// says.
pub fn one_month_before(d: Date) -> (r: Date)
    requires
        d.valid(),
    ensures
        r == spec_one_month_before(d),
        r.valid(),
{
    if d.month > 1 {
        let m = d.month - 1;
        let lim = days_in_month(d.year, m);
        Date {
            year: d.year,
            month: m,
            day: if d.day <= lim {
                d.day
            } else {
                lim
            },
        }
    } else if d.year > 1 {
        Date { year: d.year - 1, month: 12, day: d.day }
    } else {
        d
    }
}

proof fn lemma_dec_digits_len_small(n: int)
    requires
        0 <= n <= 9999,
    ensures
        n < 10 ==> dec_digits(n).len() == 1,
        10 <= n < 100 ==> dec_digits(n).len() == 2,
        100 <= n < 1000 ==> dec_digits(n).len() == 3,
        1000 <= n ==> dec_digits(n).len() == 4,
{
    if n >= 10 {
        assert(dec_digits(n) == dec_digits(n / 10).push(crate::money::digit_char(n % 10)));
        if n / 10 >= 10 {
            assert(dec_digits(n / 10) == dec_digits(n / 100).push(
                crate::money::digit_char(n / 10 % 10),
            ));
            if n / 100 >= 10 {
                assert(dec_digits(n / 100) == dec_digits(n / 1000).push(
                    crate::money::digit_char(n / 100 % 10),
                ));
                assert(n / 1000 < 10);
            }
        }
    }
}

/// Appends the decimal digits of `n`, left-padded with zeros to width
/// `w`, for the small widths that dates use.
fn push_padded(s: &mut String, n: u16, w: u8)
    requires
        n <= 9999,
        w == 2 || w == 4,
        w == 2 ==> n <= 99,
    ensures
        final(s)@ == old(s)@ + padded(n as int, w as int),
{
    proof {
        lemma_dec_digits_len_small(n as int);
    }
    let mut z: u8 = 0;
    if n < 10 {
        z = w - 1;
    } else if n < 100 {
        z = w - 2;
    } else if n < 1000 {
        if w == 4 {
            z = 1;
        }
    }
    let ghost zcount = z as int;
    let mut k: u8 = 0;
    while k < z
        invariant
            0 <= k <= z,
            s@ == old(s)@ + zeros(k as int),
        decreases z - k,
    {
        push_char(s, '0');
        proof {
            assert(zeros(k as int + 1) == zeros(k as int).push('0'));
            assert(old(s)@ + zeros(k as int + 1) == (old(s)@ + zeros(k as int)).push('0'));
        }
        k = k + 1;
    }
    push_dec(s, n as u64);
    proof {
        assert(zcount == w as int - dec_digits(n as int).len());
        assert(s@ =~= old(s)@ + padded(n as int, w as int));
    }
}

/// Renders a date as ISO `YYYY-MM-DD`.
pub fn format_iso(d: Date) -> (r: String)
    requires
        d.valid(),
    ensures
        r@ == iso_date(d),
{
    let mut s = String::new();
    push_padded(&mut s, d.year, 4);
    push_char(&mut s, '-');
    push_padded(&mut s, d.month as u16, 2);
    push_char(&mut s, '-');
    push_padded(&mut s, d.day as u16, 2);
    proof {
        assert(s@ =~= iso_date(d));
    }
    s
}

/// Relies on `chrono::Utc::now` and `chrono::Datelike`: the current
/// UTC calendar date, with month and day numbers starting from one and
/// bounded as the calendar bounds them.
#[verifier::external_body]
fn now_ymd() -> (r: (i32, u32, u32))
    ensures
        1 <= r.1 <= 12,
        1 <= r.2 <= 31,
{
    let d = chrono::Utc::now().date_naive();
    (chrono::Datelike::year(&d), chrono::Datelike::month(&d), chrono::Datelike::day(&d))
}

/// The current UTC date, with the year clamped into the range a valid
/// `Date` carries.
pub fn current_date() -> (r: Date)
    ensures
        r.valid(),
{
    let (y, m, d) = now_ymd();
    let year: u16 = if y < 1 {
        1
    } else if y > 9999 {
        9999
    } else {
        y as u16
    };
    Date { year, month: m as u8, day: d as u8 }
}

} // verus!
