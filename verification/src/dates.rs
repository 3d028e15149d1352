//! Calendar dates and the filename date token: encoding, decoding, ordering.
//!
//! A date token is the textual form `"<month>-<day>-<year>"` (1-based month,
//! no zero padding) that names an entry file, usually followed by a `.md`
//! extension. Decoding reconstructs a real calendar date so that tokens can
//! be ordered chronologically rather than lexically; a malformed token falls
//! back to the epoch date and therefore sorts before every valid date.

use crate::text::{
    digit_value, is_digit_char, is_numeric, lemma_split_char_nonempty, numeric_value, parse_u32,
    split_char, split_str,
};
use core::cmp::Ordering;
use vstd::prelude::*;
use vstd::string::StrSliceExecFns;
use vstd::string::StringExecFns;

verus! {

/// A calendar date as plain year, month (1-based) and day fields.
#[derive(Clone, Copy, Debug, PartialEq, Eq, Structural)]
pub struct Date {
    pub year: u32,
    pub month: u32,
    pub day: u32,
}

/// The error returned when a date token cannot be decoded.
#[derive(Clone, Copy, Debug, PartialEq, Eq, Structural)]
pub struct DecodeError;

/// Whether `year` is a leap year in the Gregorian calendar.
pub open spec fn is_leap_year(year: u32) -> bool {
    year % 4 == 0 && (year % 100 != 0 || year % 400 == 0)
}

/// The number of days in the given month, or 0 for a month outside 1..=12.
pub open spec fn days_in_month(year: u32, month: u32) -> u32 {
    if month == 1 || month == 3 || month == 5 || month == 7 || month == 8 || month == 10
        || month == 12 {
        31
    } else if month == 4 || month == 6 || month == 9 || month == 11 {
        30
    } else if month == 2 {
        if is_leap_year(year) {
            29
        } else {
            28
        }
    } else {
        0
    }
}

/// Whether the fields form a valid calendar date.
pub open spec fn date_valid(d: Date) -> bool {
    1 <= d.month <= 12 && 1 <= d.day <= days_in_month(d.year, d.month)
}

/// Strict chronological order on dates: year, then month, then day.
pub open spec fn date_lt(a: Date, b: Date) -> bool {
    a.year < b.year || (a.year == b.year && (a.month < b.month || (a.month == b.month && a.day
        < b.day)))
}

/// The fallback date for tokens that do not decode: earlier than (or equal
/// to) every date a well-formed filename can carry.
pub open spec fn epoch() -> Date {
    Date { year: 1970, month: 1, day: 1 }
}

/// What decoding a date token yields: the first three `-`-separated fields
/// are month, day and year, any extension after a `.` is stripped from the
/// year, every field must be numeric, and the three values must form a valid
/// calendar date.
pub open spec fn decode_spec(token: Seq<char>) -> Option<Date> {
    let fields = split_char(token, '-');
    if fields.len() < 3 {
        None
    } else {
        let m = fields[0];
        let d = fields[1];
        let y = split_char(fields[2], '.').first();
        if is_numeric(m) && numeric_value(m) <= u32::MAX && is_numeric(d) && numeric_value(d)
            <= u32::MAX && is_numeric(y) && numeric_value(y) <= u32::MAX {
            let date = Date {
                year: numeric_value(y) as u32,
                month: numeric_value(m) as u32,
                day: numeric_value(d) as u32,
            };
            if date_valid(date) {
                Some(date)
            } else {
                None
            }
        } else {
            None
        }
    }
}

/// The date a token stands for when ordering filenames: its decoded date, or
/// the epoch if it does not decode.
pub open spec fn date_key(token: Seq<char>) -> Date {
    match decode_spec(token) {
        Some(d) => d,
        None => epoch(),
    }
}

impl Date {
    /// Whether the fields form a valid calendar date.
    pub fn is_valid(&self) -> (b: bool)
        ensures
            b == date_valid(*self),
    {
        if self.month < 1 || self.month > 12 || self.day < 1 {
            return false;
        }
        let leap = self.year % 4 == 0 && (self.year % 100 != 0 || self.year % 400 == 0);
        let max_day: u32 = if self.month == 4 || self.month == 6 || self.month == 9 || self.month
            == 11 {
            30
        } else if self.month == 2 {
            if leap {
                29
            } else {
                28
            }
        } else {
            31
        };
        self.day <= max_day
    }
}

/// Decodes a date token (with or without a trailing `.md`-style extension)
/// into a calendar date; exactly the malformed tokens are rejected.
pub fn decode(token: &str) -> (r: Result<Date, DecodeError>)
    ensures
        r is Ok <==> decode_spec(token@) is Some,
        r is Ok ==> r->Ok_0 == decode_spec(token@)->Some_0,
{
    let fields = split_str(token, '-');
    if fields.len() < 3 {
        return Err(DecodeError);
    }
    proof {
        lemma_split_char_nonempty(fields[2]@, '.');
    }
    let year_field = split_str(fields[2].as_str(), '.');
    let month = match parse_u32(fields[0].as_str()) {
        Some(v) => v,
        None => {
            return Err(DecodeError);
        },
    };
    let day = match parse_u32(fields[1].as_str()) {
        Some(v) => v,
        None => {
            return Err(DecodeError);
        },
    };
    let year = match parse_u32(year_field[0].as_str()) {
        Some(v) => v,
        None => {
            return Err(DecodeError);
        },
    };
    let date = Date { year, month, day };
    if date.is_valid() {
        Ok(date)
    } else {
        Err(DecodeError)
    }
}

/// Decodes an entry filename into the date it stands for, falling back to
/// the epoch when the name is not a date token.
pub fn file_name_to_date(name: String) -> (d: Date)
    ensures
        d == date_key(name@),
{
    match decode(name.as_str()) {
        Ok(d) => d,
        Err(_) => Date { year: 1970, month: 1, day: 1 },
    }
}

/// Orders two entry filenames by the calendar dates they encode,
/// chronologically rather than lexically; a malformed name counts as the
/// epoch and so never wins.
pub fn compare_entry_dates(x: String, y: String) -> (r: Ordering)
    ensures
        r == Ordering::Less <==> date_lt(date_key(x@), date_key(y@)),
        r == Ordering::Greater <==> date_lt(date_key(y@), date_key(x@)),
        r == Ordering::Equal <==> date_key(x@) == date_key(y@),
{
    let a = file_name_to_date(x);
    let b = file_name_to_date(y);
    if a.year < b.year {
        Ordering::Less
    } else if a.year > b.year {
        Ordering::Greater
    } else if a.month < b.month {
        Ordering::Less
    } else if a.month > b.month {
        Ordering::Greater
    } else if a.day < b.day {
        Ordering::Less
    } else if a.day > b.day {
        Ordering::Greater
    } else {
        Ordering::Equal
    }
}

/// The digit character for a value below ten.
pub open spec fn digit_char(n: nat) -> char {
    if n == 0 {
        '0'
    } else if n == 1 {
        '1'
    } else if n == 2 {
        '2'
    } else if n == 3 {
        '3'
    } else if n == 4 {
        '4'
    } else if n == 5 {
        '5'
    } else if n == 6 {
        '6'
    } else if n == 7 {
        '7'
    } else if n == 8 {
        '8'
    } else {
        '9'
    }
}

/// The decimal digits of `n`, most significant first, without padding.
pub open spec fn dec_digits(n: nat) -> Seq<char>
    decreases n,
{
    if n < 10 {
        seq![digit_char(n)]
    } else {
        dec_digits(n / 10).push(digit_char(n % 10))
    }
}

/// The decimal rendering of a number is a numeric string and reads back as
/// the same number.
pub proof fn lemma_dec_digits_numeric(n: nat)
    ensures
        is_numeric(dec_digits(n)),
        numeric_value(dec_digits(n)) == n,
    decreases n,
{
    if n < 10 {
        assert(dec_digits(n) == seq![digit_char(n)]);
        assert(seq![digit_char(n)].drop_last() =~= Seq::<char>::empty());
        assert(seq![digit_char(n)].last() == digit_char(n));
        assert(digit_value(digit_char(n)) == n);
        assert(numeric_value(dec_digits(n)) == numeric_value(Seq::<char>::empty()) * 10
            + digit_value(digit_char(n)));
    } else {
        lemma_dec_digits_numeric(n / 10);
        let s = dec_digits(n);
        assert(s.drop_last() =~= dec_digits(n / 10));
        assert(s.last() == digit_char(n % 10));
        assert(digit_value(digit_char(n % 10)) == n % 10);
        assert(numeric_value(s) == (n / 10) * 10 + n % 10);
        assert((n / 10) * 10 + n % 10 == n) by (nonlinear_arith);
    }
}

/// The date token of a date: month, day and year in decimal, joined by `-`.
pub open spec fn date_token(d: Date) -> Seq<char> {
    dec_digits(d.month as nat) + seq!['-'] + dec_digits(d.day as nat) + seq!['-'] + dec_digits(
        d.year as nat,
    )
}

fn digit_str(d: u32) -> (r: &'static str)
    requires
        d < 10,
    ensures
        r@ == seq![digit_char(d as nat)],
{
    match d {
        0 => {
            proof {
                reveal_strlit("0");
            }
            let r = "0";
            proof {
                assert(r@ =~= seq![digit_char(0)]);
            }
            r
        },
        1 => {
            proof {
                reveal_strlit("1");
            }
            let r = "1";
            proof {
                assert(r@ =~= seq![digit_char(1)]);
            }
            r
        },
        2 => {
            proof {
                reveal_strlit("2");
            }
            let r = "2";
            proof {
                assert(r@ =~= seq![digit_char(2)]);
            }
            r
        },
        3 => {
            proof {
                reveal_strlit("3");
            }
            let r = "3";
            proof {
                assert(r@ =~= seq![digit_char(3)]);
            }
            r
        },
        4 => {
            proof {
                reveal_strlit("4");
            }
            let r = "4";
            proof {
                assert(r@ =~= seq![digit_char(4)]);
            }
            r
        },
        5 => {
            proof {
                reveal_strlit("5");
            }
            let r = "5";
            proof {
                assert(r@ =~= seq![digit_char(5)]);
            }
            r
        },
        6 => {
            proof {
                reveal_strlit("6");
            }
            let r = "6";
            proof {
                assert(r@ =~= seq![digit_char(6)]);
            }
            r
        },
        7 => {
            proof {
                reveal_strlit("7");
            }
            let r = "7";
            proof {
                assert(r@ =~= seq![digit_char(7)]);
            }
            r
        },
        8 => {
            proof {
                reveal_strlit("8");
            }
            let r = "8";
            proof {
                assert(r@ =~= seq![digit_char(8)]);
            }
            r
        },
        _ => {
            proof {
                reveal_strlit("9");
            }
            let r = "9";
            proof {
                assert(r@ =~= seq![digit_char(9)]);
            }
            r
        },
    }
}

/// Appends the decimal digits of `n` to `out`.
fn push_decimal(n: u32, out: &mut String)
    ensures
        final(out)@ == old(out)@ + dec_digits(n as nat),
    decreases n,
{
    if n >= 10 {
        push_decimal(n / 10, out);
    }
    let d = digit_str(n % 10);
    out.append(d);
    proof {
        if n < 10 {
            assert(n % 10 == n);
            assert(final(out)@ =~= old(out)@ + dec_digits(n as nat));
        } else {
            assert(dec_digits(n as nat) == dec_digits(n as nat / 10).push(
                digit_char(n as nat % 10),
            ));
            assert(final(out)@ =~= old(out)@ + dec_digits(n as nat));
        }
    }
}

/// Encodes a date as the token used in entry filenames:
/// `"<month>-<day>-<year>"`, unpadded.
pub fn to_filename_string(date: &Date) -> (r: String)
    ensures
        r@ == date_token(*date),
{
    let mut r = String::new();
    push_decimal(date.month, &mut r);
    r.append("-");
    push_decimal(date.day, &mut r);
    r.append("-");
    push_decimal(date.year, &mut r);
    proof {
        reveal_strlit("-");
        assert("-"@ =~= seq!['-']);
        assert(r@ =~= date_token(*date));
    }
    r
}

} // verus!
