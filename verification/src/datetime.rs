use crate::cycle::{cycle_of, year_in_cycle};
use crate::digits::{digit, digit_char, push_two_or_more, two, two_or_more};
use chrono::{Datelike, Timelike};
use vstd::prelude::*;
use vstd::string::*;

verus! {

/// What a calendar and a clock on the wall show: a day of the proleptic
/// Gregorian calendar and a time of day, to the nanosecond. A leap second is
/// the 59th second with a thousand million nanoseconds or more.
#[derive(Clone, Copy, Debug, PartialEq, Eq)]
pub struct WallTime {
    pub year: i32,
    pub month: u32,
    pub day: u32,
    pub hour: u32,
    pub minute: u32,
    pub second: u32,
    pub nano: u32,
}

/// Whether February has 29 days in `year`.
pub open spec fn leap_year(year: int) -> bool {
    (year % 4 == 0 && year % 100 != 0) || year % 400 == 0
}

/// The number of days of a month.
pub open spec fn days_in(year: int, month: int) -> int {
    if month == 2 {
        if leap_year(year) {
            29
        } else {
            28
        }
    } else if month == 4 || month == 6 || month == 9 || month == 11 {
        30
    } else {
        31
    }
}

/// The day exists, in a year that the calendar reaches.
pub open spec fn calendar_day(year: int, month: int, day: int) -> bool {
    &&& -262143 <= year <= 262142
    &&& 1 <= month <= 12
    &&& 1 <= day <= days_in(year, month)
}

/// The time of day exists.
pub open spec fn clock_time(hour: int, minute: int, second: int, nano: int) -> bool {
    &&& 0 <= hour < 24
    &&& 0 <= minute < 60
    &&& 0 <= second < 60
    &&& 0 <= nano < 2_000_000_000
    &&& nano >= 1_000_000_000 ==> second == 59
}

impl WallTime {
    /// The day and the time of day exist.
    pub open spec fn wf(&self) -> bool {
        &&& calendar_day(self.year as int, self.month as int, self.day as int)
        &&& clock_time(
            self.hour as int,
            self.minute as int,
            self.second as int,
            self.nano as int,
        )
    }

    /// The reading with these parts, if there is such a day and such a time
    /// of day.
    pub fn new(
        year: i32,
        month: u32,
        day: u32,
        hour: u32,
        minute: u32,
        second: u32,
        nano: u32,
    ) -> (r: Option<Self>)
        ensures
            r is Some <==> calendar_day(year as int, month as int, day as int) && clock_time(
                hour as int,
                minute as int,
                second as int,
                nano as int,
            ),
            r matches Some(w) ==> w == (WallTime { year, month, day, hour, minute, second, nano }),
    {
        if year < -262143 || year > 262142 || month < 1 || month > 12 || day < 1 {
            return None;
        }
        let leap = (year % 4 == 0 && year % 100 != 0) || year % 400 == 0;
        let days: u32 = if month == 2 {
            if leap {
                29
            } else {
                28
            }
        } else if month == 4 || month == 6 || month == 9 || month == 11 {
            30
        } else {
            31
        };
        if day > days || hour >= 24 || minute >= 60 || second >= 60 || nano >= 2_000_000_000 {
            return None;
        }
        if nano >= 1_000_000_000 && second != 59 {
            return None;
        }
        Some(WallTime { year, month, day, hour, minute, second, nano })
    }
}

/// The digit of base 36 for a number under 36, with the letters capital or
/// small.
pub open spec fn digit_36(d: int, capital: bool) -> char {
    if d < 10 {
        digit(d)
    } else if capital {
        (d - 10 + 65) as char
    } else {
        (d - 10 + 97) as char
    }
}

/// A number in base 36.
pub open spec fn base_36(n: nat, capital: bool) -> Seq<char>
    decreases n,
{
    if n < 36 {
        seq![digit_36(n as int, capital)]
    } else {
        base_36(n / 36, capital).push(digit_36((n % 36) as int, capital))
    }
}

/// Writes `n` in base 36 with small letters, as `radix_fmt::radix_36` does
/// when it is displayed plainly.
#[verifier::external_body]
fn radix_36_small(n: u32) -> (r: String)
    ensures
        r@ == base_36(n as nat, false),
{
    format!("{}", radix_fmt::radix_36(n))
}

/// Writes `n` in base 36 with capital letters, as `radix_fmt::radix_36` does
/// when it is displayed in the alternate form.
#[verifier::external_body]
fn radix_36_capital(n: u32) -> (r: String)
    ensures
        r@ == base_36(n as nat, true),
{
    format!("{:#}", radix_fmt::radix_36(n))
}

/// Month and day, each in two digits; bare where the text has to be safe in
/// a file name or a URL, else with a tilde before and a slash between.
pub open spec fn date_shown(month: int, day: int, url_safe: bool) -> Seq<char> {
    if url_safe {
        two(month) + two(day)
    } else {
        seq!['~'] + two(month) + seq!['/'] + two(day)
    }
}

/// The second that a clock shows: a leap second is the 60th.
pub open spec fn second_shown(second: int, nano: int) -> int {
    second + nano / 1_000_000_000
}

/// Hour, minute and second, each in two digits; with a hyphen before the
/// second where the text has to be safe in a file name or a URL, else with
/// colons between.
pub open spec fn time_shown(hour: int, minute: int, second: int, url_safe: bool) -> Seq<char> {
    if url_safe {
        two(hour) + two(minute) + seq!['-'] + two(second)
    } else {
        two(hour) + seq![':'] + two(minute) + seq![':'] + two(second)
    }
}

/// Writes month and day of a calendar day with `chrono::NaiveDate::format`.
/// Believed of it: `%m` and `%d` give the numbers of the month and of the
/// day in two digits, and every other character of these two patterns
/// stands for itself.
#[verifier::external_body]
fn format_date(year: i32, month: u32, day: u32, pattern: &str) -> (r: String)
    requires
        calendar_day(year as int, month as int, day as int),
        pattern@ == "%m%d"@ || pattern@ == "~%m/%d"@,
    ensures
        r@ == date_shown(month as int, day as int, pattern@ == "%m%d"@),
{
    chrono::NaiveDate::from_ymd_opt(year, month, day).unwrap().format(pattern).to_string()
}

/// Writes a time of day with `chrono::NaiveTime::format`. Believed of it:
/// `%H`, `%M` and `%S` give hour, minute and second in two digits, a leap
/// second as 60, and every other character of these two patterns stands for
/// itself.
#[verifier::external_body]
fn format_time(hour: u32, minute: u32, second: u32, nano: u32, pattern: &str) -> (r: String)
    requires
        clock_time(hour as int, minute as int, second as int, nano as int),
        pattern@ == "%H%M-%S"@ || pattern@ == "%H:%M:%S"@,
    ensures
        r@ == time_shown(
            hour as int,
            minute as int,
            second_shown(second as int, nano as int),
            pattern@ == "%H%M-%S"@,
        ),
{
    chrono::NaiveTime::from_hms_nano_opt(hour, minute, second, nano).unwrap().format(
        pattern,
    ).to_string()
}

/// Reads calendar and clock with `chrono::Local::now`, in the time zone of
/// the machine. Believed of it: the day and the time of day exist, and the
/// clock, which counts the time since 1970 in whole seconds and nanoseconds
/// of a second, gives no reading within a leap second.
#[verifier::external_body]
fn local_now() -> (r: WallTime)
    ensures
        r.wf(),
        r.nano < 1_000_000_000,
{
    let t = chrono::Local::now().naive_local();
    WallTime {
        year: t.year(),
        month: t.month(),
        day: t.day(),
        hour: t.hour(),
        minute: t.minute(),
        second: t.second(),
        nano: t.nanosecond(),
    }
}

/// The two characters that stand for a year: the decade of the cycle of two
/// hundred years that starts with 2022, as a letter of base 36 from `a` on,
/// capital from 2022 on and small before, and the last digit of the year in
/// the cycle.
pub open spec fn year_shown(year: int) -> Seq<char> {
    let cycle = cycle_of(year);
    base_36((cycle / 10 + 10) as nat, year >= 2022).push(digit(cycle % 10))
}

/// The hundredths of the second, in two digits, or in three within a leap
/// second.
pub open spec fn centis_shown(nano: int) -> Seq<char> {
    two_or_more(nano / 1_000_000 / 10)
}

/// Which parts of a reading are written, and whether the text has to be safe
/// in a file name and in a URL.
#[derive(Debug, Clone, Copy, PartialEq, Eq)]
pub struct Katetime {
    pub show_date: bool,
    pub show_time: bool,
    pub url_safe: bool,
}

impl Katetime {
    /// What `generate` writes for a reading.
    pub open spec fn generated(&self, dt: WallTime) -> Seq<char> {
        let date = if self.show_date {
            year_shown(dt.year as int) + date_shown(dt.month as int, dt.day as int, self.url_safe)
                + if self.show_time {
                seq![if self.url_safe {
                    '-'
                } else {
                    ' '
                }]
            } else {
                Seq::<char>::empty()
            }
        } else {
            Seq::<char>::empty()
        };
        let time = if self.show_time {
            time_shown(
                dt.hour as int,
                dt.minute as int,
                second_shown(dt.second as int, dt.nano as int),
                self.url_safe,
            ) + if self.url_safe {
                centis_shown(dt.nano as int)
            } else {
                Seq::<char>::empty()
            }
        } else {
            Seq::<char>::empty()
        };
        date + time
    }

    fn new(show_date: bool, show_time: bool, url_safe: bool) -> (r: Self)
        ensures
            r == (Katetime { show_date, show_time, url_safe }),
    {
        Self { show_date, show_time, url_safe }
    }

    /// Today's date, for a reader.
    pub fn now_date_human() -> (r: String)
        ensures
            exists|dt: WallTime|
                dt.wf() && dt.nano < 1_000_000_000 && r@ == #[trigger] (Katetime {
                    show_date: true,
                    show_time: false,
                    url_safe: false,
                }).generated(dt),
            r@.len() == (Katetime { show_date: true, show_time: false, url_safe: false }).shown_len(),
    {
        Self::new(true, false, false).generate_now()
    }

    /// The time of day, for a reader.
    pub fn now_time_human() -> (r: String)
        ensures
            exists|dt: WallTime|
                dt.wf() && dt.nano < 1_000_000_000 && r@ == #[trigger] (Katetime {
                    show_date: false,
                    show_time: true,
                    url_safe: false,
                }).generated(dt),
            r@.len() == (Katetime { show_date: false, show_time: true, url_safe: false }).shown_len(),
    {
        Self::new(false, true, false).generate_now()
    }

    /// Date and time, for a reader.
    pub fn now_datetime_human() -> (r: String)
        ensures
            exists|dt: WallTime|
                dt.wf() && dt.nano < 1_000_000_000 && r@ == #[trigger] (Katetime {
                    show_date: true,
                    show_time: true,
                    url_safe: false,
                }).generated(dt),
            r@.len() == (Katetime { show_date: true, show_time: true, url_safe: false }).shown_len(),
    {
        Self::new(true, true, false).generate_now()
    }

    /// Today's date, safe in a file name and in a URL.
    pub fn now_date() -> (r: String)
        ensures
            exists|dt: WallTime|
                dt.wf() && dt.nano < 1_000_000_000 && r@ == #[trigger] (Katetime {
                    show_date: true,
                    show_time: false,
                    url_safe: true,
                }).generated(dt),
            r@.len() == (Katetime { show_date: true, show_time: false, url_safe: true }).shown_len(),
    {
        Self::new(true, false, true).generate_now()
    }

    /// The time of day, safe in a file name and in a URL.
    pub fn now_time() -> (r: String)
        ensures
            exists|dt: WallTime|
                dt.wf() && dt.nano < 1_000_000_000 && r@ == #[trigger] (Katetime {
                    show_date: false,
                    show_time: true,
                    url_safe: true,
                }).generated(dt),
            r@.len() == (Katetime { show_date: false, show_time: true, url_safe: true }).shown_len(),
    {
        Self::new(false, true, true).generate_now()
    }

    /// Date and time, safe in a file name and in a URL.
    pub fn now_datetime() -> (r: String)
        ensures
            exists|dt: WallTime|
                dt.wf() && dt.nano < 1_000_000_000 && r@ == #[trigger] (Katetime {
                    show_date: true,
                    show_time: true,
                    url_safe: true,
                }).generated(dt),
            r@.len() == (Katetime { show_date: true, show_time: true, url_safe: true }).shown_len(),
    {
        Self::new(true, true, true).generate_now()
    }

    /// Writes what calendar and clock show now, in the time zone of the
    /// machine.
    pub fn generate_now(&self) -> (r: String)
        ensures
            exists|dt: WallTime|
                dt.wf() && dt.nano < 1_000_000_000 && r@ == #[trigger] self.generated(dt),
            r@.len() == self.shown_len(),
    {
        let dt = local_now();
        let r = self.generate(&dt);
        proof {
            assert(r@ == self.generated(dt));
            self.lemma_shown_len(dt);
        }
        r
    }

    /// How many characters are written for a reading outside a leap second.
    pub open spec fn shown_len(&self) -> nat {
        let date: nat = if !self.show_date {
            0
        } else if self.url_safe {
            6
        } else {
            8
        };
        let between: nat = if self.show_date && self.show_time {
            1
        } else {
            0
        };
        let time: nat = if !self.show_time {
            0
        } else if self.url_safe {
            9
        } else {
            8
        };
        date + between + time
    }

    /// What is written for a reading outside a leap second has a length
    /// that the reading does not change.
    pub proof fn lemma_shown_len(&self, dt: WallTime)
        requires
            dt.wf(),
            dt.nano < 1_000_000_000,
        ensures
            self.generated(dt).len() == self.shown_len(),
    {
        let cycle = cycle_of(dt.year as int);
        assert(0 <= cycle < 200);
        assert(base_36((cycle / 10 + 10) as nat, dt.year >= 2022).len() == 1);
        assert(year_shown(dt.year as int).len() == 2);
        assert(date_shown(dt.month as int, dt.day as int, self.url_safe).len() == if self.url_safe {
            4nat
        } else {
            6nat
        });
        assert(time_shown(
            dt.hour as int,
            dt.minute as int,
            second_shown(dt.second as int, dt.nano as int),
            self.url_safe,
        ).len() == if self.url_safe {
            7nat
        } else {
            8nat
        });
        assert(centis_shown(dt.nano as int).len() == 2);
    }

    /// Writes the year's mark behind `out`.
    fn write_year(year: i32, out: &mut String)
        ensures
            final(out)@ == old(out)@ + year_shown(year as int),
    {
        let cycle = year_in_cycle(year);
        let decade = cycle / 10 + 10;
        let letter = if year >= 2022 {
            radix_36_capital(decade)
        } else {
            radix_36_small(decade)
        };
        out.append(letter.as_str());
        out.push(digit_char((cycle % 10) as u8));
        assert(out@ =~= old(out)@ + year_shown(year as int));
    }

    /// Writes the year's mark, the month and the day behind `out`.
    fn write_date(&self, dt: &WallTime, out: &mut String)
        requires
            dt.wf(),
        ensures
            final(out)@ == old(out)@ + year_shown(dt.year as int) + date_shown(
                dt.month as int,
                dt.day as int,
                self.url_safe,
            ),
    {
        Self::write_year(dt.year, out);
        let date = if self.url_safe {
            format_date(dt.year, dt.month, dt.day, "%m%d")
        } else {
            proof {
                reveal_strlit("%m%d");
                reveal_strlit("~%m/%d");
                assert("~%m/%d"@.len() != "%m%d"@.len());
            }
            format_date(dt.year, dt.month, dt.day, "~%m/%d")
        };
        out.append(date.as_str());
    }

    /// Writes the time of day behind `out`.
    fn write_time(&self, dt: &WallTime, out: &mut String)
        requires
            dt.wf(),
        ensures
            final(out)@ == old(out)@ + time_shown(
                dt.hour as int,
                dt.minute as int,
                second_shown(dt.second as int, dt.nano as int),
                self.url_safe,
            ) + if self.url_safe {
                centis_shown(dt.nano as int)
            } else {
                Seq::<char>::empty()
            },
    {
        if self.url_safe {
            let time = format_time(dt.hour, dt.minute, dt.second, dt.nano, "%H%M-%S");
            out.append(time.as_str());
            push_two_or_more(out, dt.nano / 1_000_000 / 10);
        } else {
            proof {
                reveal_strlit("%H%M-%S");
                reveal_strlit("%H:%M:%S");
                assert("%H:%M:%S"@.len() != "%H%M-%S"@.len());
            }
            let time = format_time(dt.hour, dt.minute, dt.second, dt.nano, "%H:%M:%S");
            out.append(time.as_str());
            assert(out@ =~= old(out)@ + time@ + Seq::<char>::empty());
        }
    }

    /// Writes a reading.
    pub fn generate(&self, dt: &WallTime) -> (r: String)
        requires
            dt.wf(),
        ensures
            r@ == self.generated(*dt),
    {
        let mut s = String::new();
        if self.show_date {
            self.write_date(dt, &mut s);
            if self.show_time {
                s.push(
                    if self.url_safe {
                        '-'
                    } else {
                        ' '
                    },
                );
            }
        }
        if self.show_time {
            self.write_time(dt, &mut s);
        }
        assert(s@ =~= self.generated(*dt));
        s
    }
}

} // verus!
