use crate::cycle::{cycle_of, year_in_cycle};
use crate::digits::{digit, digit_char, push_two, two};
use vstd::prelude::*;

verus! {

/// What the calendar and the clock show at one moment.
#[derive(Clone, Copy, Debug, PartialEq, Eq)]
pub struct Moment {
    pub year: i32,
    pub month: u8,
    pub day: u8,
    pub hour: u8,
    pub minute: u8,
    pub second: u8,
    pub microsecond: u32,
}

impl Moment {
    /// Every part lies in the range that a calendar and a clock give it.
    pub open spec fn wf(&self) -> bool {
        &&& 1 <= self.month <= 12
        &&& 1 <= self.day <= 31
        &&& self.hour < 24
        &&& self.minute < 60
        &&& self.second < 60
        &&& self.microsecond < 1_000_000
    }

    /// Whether every part lies in its range.
    pub fn is_valid(&self) -> (r: bool)
        ensures
            r == self.wf(),
    {
        1 <= self.month && self.month <= 12 && 1 <= self.day && self.day <= 31 && self.hour < 24
            && self.minute < 60 && self.second < 60 && self.microsecond < 1_000_000
    }
}

/// The offset from UTC, in seconds, at which every moment is shown.
pub const SHOWN_OFFSET: i32 = 8 * 3600;

/// What the calendar and the clock show, `offset_seconds` east of Greenwich,
/// at the moment that lies `unix_nanos` nanoseconds after the start of 1970
/// in UTC; nothing where the calendar does not reach that far.
pub uninterp spec fn civil_of(unix_nanos: int, offset_seconds: int) -> Option<Moment>;

/// Reads a moment off the calendar, with `time::OffsetDateTime`: the moment
/// is taken from its Unix timestamp by `from_unix_timestamp_nanos`, moved by
/// `checked_to_offset` to the offset that `UtcOffset::from_whole_seconds`
/// gives, and read part by part. Believed of it: the same numbers give the
/// same reading, and the parts of a reading lie in the ranges that the
/// accessors document.
#[verifier::external_body]
fn civil_at(unix_nanos: i128, offset_seconds: i32) -> (r: Option<Moment>)
    ensures
        r == civil_of(unix_nanos as int, offset_seconds as int),
        r matches Some(moment) ==> moment.wf(),
{
    let offset = ::time::UtcOffset::from_whole_seconds(offset_seconds).ok()?;
    let utc = ::time::OffsetDateTime::from_unix_timestamp_nanos(unix_nanos).ok()?;
    let dt = utc.checked_to_offset(offset)?;
    Some(
        Moment {
            year: dt.year(),
            month: u8::from(dt.month()),
            day: dt.day(),
            hour: dt.hour(),
            minute: dt.minute(),
            second: dt.second(),
            microsecond: dt.microsecond(),
        },
    )
}

/// Reads the clock, with `time::OffsetDateTime::now_utc`, as a Unix
/// timestamp in nanoseconds. Nothing is claimed of the number.
#[verifier::external_body]
fn clock() -> (r: i128) {
    ::time::OffsetDateTime::now_utc().unix_timestamp_nanos()
}

/// The two characters that stand for a year: a letter for the decade of the
/// cycle, a capital one for the years of our era, and the last digit.
pub open spec fn year_mark(year: int) -> Seq<char> {
    let yy = cycle_of(year);
    let first = if year > 0 {
        65 + yy / 10
    } else {
        97 + yy / 10
    };
    seq![first as char, digit(yy % 10)]
}

/// A moment as text: the year's mark, month and day, hour and minute, second
/// and hundredths of a second, and in the precise form the next four digits
/// of the second behind a dot.
pub open spec fn rendered(moment: Moment, precise: bool) -> Seq<char> {
    let micro = moment.microsecond as int;
    year_mark(moment.year as int) + two(moment.month as int) + two(moment.day as int) + seq!['-']
        + two(moment.hour as int) + two(moment.minute as int) + seq!['-'] + two(
        moment.second as int,
    ) + two(micro / 10000) + if precise {
        seq!['.'] + two(micro % 10000 / 100) + two(micro % 100)
    } else {
        Seq::<char>::empty()
    }
}

/// Writes a moment as text.
pub fn format_moment(moment: &Moment, precise: bool) -> (r: String)
    requires
        moment.wf(),
    ensures
        r@ == rendered(*moment, precise),
{
    let mut out = String::new();
    let yy = year_in_cycle(moment.year);
    let base: u8 = if moment.year > 0 {
        65
    } else {
        97
    };
    out.push((base + (yy / 10) as u8) as char);
    out.push(digit_char((yy % 10) as u8));
    push_two(&mut out, moment.month as u32);
    push_two(&mut out, moment.day as u32);
    out.push('-');
    push_two(&mut out, moment.hour as u32);
    push_two(&mut out, moment.minute as u32);
    out.push('-');
    push_two(&mut out, moment.second as u32);
    push_two(&mut out, moment.microsecond / 10000);
    if precise {
        out.push('.');
        push_two(&mut out, moment.microsecond % 10000 / 100);
        push_two(&mut out, moment.microsecond % 100);
    }
    assert(out@ =~= rendered(*moment, precise));
    out
}

/// `text` is what is written for the moment `unix_nanos` nanoseconds after
/// the start of 1970 in UTC: what calendar and clock show then at the shown
/// offset, as text; nothing where the calendar does not reach that far.
pub open spec fn written_for(text: Option<String>, unix_nanos: int, precise: bool) -> bool {
    match civil_of(unix_nanos, SHOWN_OFFSET as int) {
        Some(moment) => moment.wf() && text is Some && text->0@ == rendered(moment, precise),
        None => text is None,
    }
}

/// The moment `unix_nanos` nanoseconds after the start of 1970 in UTC, as
/// text; nothing where the calendar does not reach that far.
pub fn of(unix_nanos: i128) -> (r: Option<String>)
    ensures
        written_for(r, unix_nanos as int, false),
{
    match civil_at(unix_nanos, SHOWN_OFFSET) {
        Some(moment) => Some(format_moment(&moment, false)),
        None => None,
    }
}

/// The moment `unix_nanos` nanoseconds after the start of 1970 in UTC, as
/// text in the precise form; nothing where the calendar does not reach that
/// far.
pub fn precise_of(unix_nanos: i128) -> (r: Option<String>)
    ensures
        written_for(r, unix_nanos as int, true),
{
    match civil_at(unix_nanos, SHOWN_OFFSET) {
        Some(moment) => Some(format_moment(&moment, true)),
        None => None,
    }
}

/// This moment as text: what `of` writes for the moment that the clock
/// gives, so nothing where the calendar does not reach that far.
pub fn now() -> (r: Option<String>)
    ensures
        exists|at: i128| #[trigger] written_for(r, at as int, false),
        r matches Some(text) ==> exists|moment: Moment|
            moment.wf() && text@ == #[trigger] rendered(moment, false),
{
    let at = clock();
    let r = of(at);
    proof {
        assert(written_for(r, at as int, false));
        if let Some(moment) = civil_of(at as int, SHOWN_OFFSET as int) {
            assert(r->0@ == rendered(moment, false));
        }
    }
    r
}

/// This moment as text in the precise form: what `precise_of` writes for the
/// moment that the clock gives, so nothing where the calendar does not reach
/// that far.
pub fn now_precise() -> (r: Option<String>)
    ensures
        exists|at: i128| #[trigger] written_for(r, at as int, true),
        r matches Some(text) ==> exists|moment: Moment|
            moment.wf() && text@ == #[trigger] rendered(moment, true),
{
    let at = clock();
    let r = precise_of(at);
    proof {
        assert(written_for(r, at as int, true));
        if let Some(moment) = civil_of(at as int, SHOWN_OFFSET as int) {
            assert(r->0@ == rendered(moment, true));
        }
    }
    r
}

} // verus!
