use vstd::prelude::*;

use crate::chars::push_char;
use crate::media::{decimal_string, decimal_text};

verus! {

/// Language of the interface.
#[derive(Clone, Copy, Debug, PartialEq, Eq, Structural)]
pub enum UiLanguage {
    French,
    English,
}

/// A calendar date: year, month of the year (from 1) and day of the month
/// (from 1).
#[derive(Clone, Copy, Debug, PartialEq, Eq, Structural)]
pub struct CalendarDate {
    pub year: i32,
    pub month: u32,
    pub day: u32,
}

/// What chrono gives as the calendar date before `year-month-day`
/// (`NaiveDate::from_ymd_opt`, then `NaiveDate::pred_opt`): none when that
/// date does not exist, or is the first one chrono can represent.
pub uninterp spec fn day_before(year: i32, month: u32, day: u32) -> Option<(i32, u32, u32)>;

/// The calendar date before `date`; a wrapper of chrono's
/// `NaiveDate::from_ymd_opt` and `NaiveDate::pred_opt`. The contract names
/// the result, a function of the date alone, and states what chrono's source
/// shows of it: `from_ymd_opt` accepts exactly the dates of the proleptic
/// Gregorian calendar from the year -262143 to 262142, and `pred_opt` gives
/// the day before, `None` only before the first of them. So there is a
/// result for every date of the calendar from the year -262142 to 262142,
/// and a result is the date one day earlier.
#[verifier::external_body]
pub(crate) fn previous_date(date: CalendarDate) -> (r: Option<CalendarDate>)
    ensures
        match r {
            Some(p) => day_before(date.year, date.month, date.day) == Some((p.year, p.month, p.day)),
            None => day_before(date.year, date.month, date.day) is None,
        },
        r matches Some(p) ==> valid_date(date) && is_day_before(p, date),
        valid_date(date) && -262142 <= date.year <= 262142 ==> r is Some,
{
    match chrono::NaiveDate::from_ymd_opt(date.year, date.month, date.day).and_then(|d| d.pred_opt()) {
        Some(p) => Some(CalendarDate {
            year: chrono::Datelike::year(&p),
            month: chrono::Datelike::month(&p),
            day: chrono::Datelike::day(&p),
        }),
        None => None,
    }
}

/// Days from 1970-01-01 to the proleptic Gregorian date `year-month-day`
/// (negative before it).
pub open spec fn days_from_civil(year: int, month: int, day: int) -> int {
    let y = if month <= 2 {
        year - 1
    } else {
        year
    };
    let era = y / 400;
    let yoe = y - era * 400;
    let mp = (month + 9) % 12;
    let doy = (153 * mp + 2) / 5 + day - 1;
    let doe = yoe * 365 + yoe / 4 - yoe / 100 + doy;
    era * 146097 + doe - 719468
}

/// Whether `year` is a leap year of the Gregorian calendar.
pub open spec fn is_leap_year(year: int) -> bool {
    year % 4 == 0 && (year % 100 != 0 || year % 400 == 0)
}

/// Number of days of month `month` of `year`.
pub open spec fn days_in_month(year: int, month: int) -> int {
    if month == 2 {
        if is_leap_year(year) {
            29
        } else {
            28
        }
    } else if month == 4 || month == 6 || month == 9 || month == 11 {
        30
    } else {
        31
    }
}

/// A date that exists in the calendar.
pub open spec fn valid_date(d: CalendarDate) -> bool {
    1 <= d.month <= 12 && 1 <= d.day <= days_in_month(d.year as int, d.month as int)
}

/// `p` is the date of the calendar one day before `d`.
pub open spec fn is_day_before(p: CalendarDate, d: CalendarDate) -> bool {
    valid_date(p) && day_number(p) == day_number(d) - 1
}

/// The day number of a date, from 1970-01-01.
pub open spec fn day_number(d: CalendarDate) -> int {
    days_from_civil(d.year as int, d.month as int, d.day as int)
}

/// The digit `k` (from 0 to 9).
pub open spec fn digit_char(k: int) -> char {
    (48 + k) as char
}

/// `HH:MM` for `secs` seconds after midnight (from 0 to 86399), hours and
/// minutes on two digits.
pub open spec fn clock_text(secs: int) -> Seq<char> {
    let h = secs / 3600;
    let m = (secs % 3600) / 60;
    seq![digit_char(h / 10), digit_char(h % 10), ':', digit_char(m / 10), digit_char(m % 10)]
}

/// The local reading of instant `epoch` (seconds) at an offset of `offset`
/// seconds from UTC: `date` is the day and `time` the `HH:MM` of
/// `epoch + offset`.
pub open spec fn local_reading(epoch: int, offset: int, date: CalendarDate, time: Seq<char>) -> bool {
    let local = epoch + offset;
    &&& valid_date(date)
    &&& day_number(date) == local / 86400
    &&& time == clock_text(local % 86400)
}

/// `date` and `time` are the local reading of `epoch` in some time zone.
pub open spec fn read_locally(epoch: int, date: CalendarDate, time: Seq<char>) -> bool {
    exists|offset: int| is_offset(offset) && #[trigger] local_reading(epoch, offset, date, time)
}

/// `date` is the day of `epoch` in some time zone: a date of the calendar,
/// the UTC day of the instant or one next to it.
pub open spec fn local_day_of(epoch: int, date: CalendarDate) -> bool {
    &&& valid_date(date)
    &&& exists|offset: int| is_offset(offset) && #[trigger] day_number(date) == (epoch + offset) / 86400
    &&& epoch / 86400 - 1 <= day_number(date) <= epoch / 86400 + 1
}

/// `time` is the `HH:MM` of `epoch` in some time zone.
pub open spec fn local_time_text(epoch: int, time: Seq<char>) -> bool {
    exists|offset: int| is_offset(offset) && #[trigger] clock_text((epoch + offset) % 86400) == time
}

/// The local offset of a time zone: less than a day either way.
pub open spec fn is_offset(offset: int) -> bool {
    -86400 < offset < 86400
}

/// The last Unix instant (seconds; about the year 255,000) for which the
/// local date and time are always known.
pub const LOCAL_TIME_LIMIT: u64 = 8_000_000_000_000;

/// The local calendar date and time of day (`HH:MM`) of the Unix instant
/// `epoch` (seconds, taken as chrono's `i64`); a wrapper of chrono's
/// `Local.timestamp_opt` and `LocalResult::single`, the date and time read
/// with `date_naive`, `Datelike` and `format("%H:%M")`. The machine's time
/// zone decides both: only what chrono documents of every outcome is
/// stated, a month from 1 to 12, a day from 1 to 31, and two zero-padded
/// digits, a colon and two more. `timestamp_opt` gives a single result for
/// every number of seconds within chrono's dates (up to the year 262142,
/// `DateTime::from_timestamp`), converting from UTC cannot fail, and so
/// there is a result for every instant up to `LOCAL_TIME_LIMIT`. `Local`
/// adds a `FixedOffset` to the UTC time, and a `FixedOffset` is less than a
/// day either way: the date and the time are those of the instant moved by
/// such an offset (`local_reading`). Which offset the machine's time zone
/// gives is left unsaid.
#[verifier::external_body]
fn local_time_of(epoch: u64) -> (r: Option<(CalendarDate, String)>)
    ensures
        r matches Some((d, t)) ==> 1 <= d.month <= 12 && 1 <= d.day <= 31 && t@.len() == 5
            && t@[2] == ':',
        epoch <= LOCAL_TIME_LIMIT ==> r is Some && read_locally(
            epoch as int,
            r->Some_0.0,
            r->Some_0.1@,
        ),
{
    match chrono::TimeZone::timestamp_opt(&chrono::Local, epoch as i64, 0).single() {
        Some(t) => {
            let d = t.date_naive();
            Some((
                CalendarDate {
                    year: chrono::Datelike::year(&d),
                    month: chrono::Datelike::month(&d),
                    day: chrono::Datelike::day(&d),
                },
                t.format("%H:%M").to_string(),
            ))
        },
        None => None,
    }
}

/// The current instant in microseconds since the Unix epoch; a wrapper of
/// chrono's `Utc::now` and `timestamp_micros`. The clock decides it: nothing
/// is stated.
#[verifier::external_body]
fn now_micros() -> (r: i64) {
    chrono::Utc::now().timestamp_micros()
}

/// The local day of a message from its Unix instant, when it has one: for
/// every instant up to `LOCAL_TIME_LIMIT`, a date of the calendar that is the
/// day of the instant at some offset of less than a day from UTC, and so the
/// UTC day of the instant or one next to it.
pub fn message_day(epoch: Option<u64>) -> (r: Option<CalendarDate>)
    ensures
        epoch is None ==> r is None,
        epoch is Some && epoch->Some_0 <= LOCAL_TIME_LIMIT ==> r is Some && local_day_of(
            epoch->Some_0 as int,
            r->Some_0,
        ),
        r matches Some(d) ==> 1 <= d.month <= 12 && 1 <= d.day <= 31,
{
    match epoch {
        Some(e) => match local_time_of(e) {
            Some((d, t)) => {
                proof {
                    if e <= LOCAL_TIME_LIMIT {
                        let o = choose|offset: int|
                            is_offset(offset) && #[trigger] local_reading(e as int, offset, d, t@);
                        lemma_next_day(e as int, o);
                    }
                }
                Some(d)
            },
            None => None,
        },
        None => None,
    }
}

proof fn lemma_next_day(e: int, o: int)
    requires
        e >= 0,
        is_offset(o),
    ensures
        e / 86400 - 1 <= (e + o) / 86400 <= e / 86400 + 1,
{
    assert(e / 86400 - 1 <= (e + o) / 86400 <= e / 86400 + 1) by (nonlinear_arith)
        requires
            e >= 0,
            -86400 < o < 86400,
    ;
}

/// The time shown in a message header: the local `HH:MM` of its Unix
/// instant, or `fallback` (the time text the message carries) when it has
/// no instant or the instant has no local time.
pub fn header_time(epoch: Option<u64>, fallback: &str) -> (r: String)
    ensures
        epoch is None ==> r@ == fallback@,
        r@ == fallback@ || (r@.len() == 5 && r@[2] == ':'),
        epoch is Some && epoch->Some_0 <= LOCAL_TIME_LIMIT ==> local_time_text(
            epoch->Some_0 as int,
            r@,
        ),
{
    match epoch {
        Some(e) => match local_time_of(e) {
            Some((d, t)) => {
                proof {
                    if e <= LOCAL_TIME_LIMIT {
                        let o = choose|offset: int|
                            is_offset(offset) && #[trigger] local_reading(e as int, offset, d, t@);
                        assert(clock_text((e + o) % 86400) == t@);
                    }
                }
                t
            },
            None => String::from_str(fallback),
        },
        None => String::from_str(fallback),
    }
}

/// `n` written in decimal, with a minus sign when negative.
pub open spec fn signed_text(n: int) -> Seq<char> {
    if n < 0 {
        seq!['-'] + decimal_text((-n) as nat)
    } else {
        decimal_text(n as nat)
    }
}

/// `n` written in decimal, with a minus sign when negative.
pub fn signed_string(n: i64) -> (r: String)
    ensures
        r@ == signed_text(n as int),
{
    if n < 0 {
        let magnitude: u64 = (0i128 - n as i128) as u64;
        let mut r = String::new();
        push_char(&mut r, '-');
        let digits = decimal_string(magnitude);
        r.append(digits.as_str());
        r
    } else {
        decimal_string(n as u64)
    }
}

/// French name of month `m` (from 1 to 12).
pub open spec fn month_name_fr(m: u32) -> Seq<char>
    recommends
        1 <= m <= 12,
{
    if m == 1 {
        "janvier"@
    } else if m == 2 {
        "février"@
    } else if m == 3 {
        "mars"@
    } else if m == 4 {
        "avril"@
    } else if m == 5 {
        "mai"@
    } else if m == 6 {
        "juin"@
    } else if m == 7 {
        "juillet"@
    } else if m == 8 {
        "août"@
    } else if m == 9 {
        "septembre"@
    } else if m == 10 {
        "octobre"@
    } else if m == 11 {
        "novembre"@
    } else {
        "décembre"@
    }
}

/// English name of month `m` (from 1 to 12).
pub open spec fn month_name_en(m: u32) -> Seq<char>
    recommends
        1 <= m <= 12,
{
    if m == 1 {
        "January"@
    } else if m == 2 {
        "February"@
    } else if m == 3 {
        "March"@
    } else if m == 4 {
        "April"@
    } else if m == 5 {
        "May"@
    } else if m == 6 {
        "June"@
    } else if m == 7 {
        "July"@
    } else if m == 8 {
        "August"@
    } else if m == 9 {
        "September"@
    } else if m == 10 {
        "October"@
    } else if m == 11 {
        "November"@
    } else {
        "December"@
    }
}

fn month_name(m: u32, language: UiLanguage) -> (r: String)
    requires
        1 <= m <= 12,
    ensures
        r@ == match language {
            UiLanguage::French => month_name_fr(m),
            UiLanguage::English => month_name_en(m),
        },
{
    match language {
        UiLanguage::French => {
            if m == 1 {
                String::from_str("janvier")
            } else if m == 2 {
                String::from_str("février")
            } else if m == 3 {
                String::from_str("mars")
            } else if m == 4 {
                String::from_str("avril")
            } else if m == 5 {
                String::from_str("mai")
            } else if m == 6 {
                String::from_str("juin")
            } else if m == 7 {
                String::from_str("juillet")
            } else if m == 8 {
                String::from_str("août")
            } else if m == 9 {
                String::from_str("septembre")
            } else if m == 10 {
                String::from_str("octobre")
            } else if m == 11 {
                String::from_str("novembre")
            } else {
                String::from_str("décembre")
            }
        },
        UiLanguage::English => {
            if m == 1 {
                String::from_str("January")
            } else if m == 2 {
                String::from_str("February")
            } else if m == 3 {
                String::from_str("March")
            } else if m == 4 {
                String::from_str("April")
            } else if m == 5 {
                String::from_str("May")
            } else if m == 6 {
                String::from_str("June")
            } else if m == 7 {
                String::from_str("July")
            } else if m == 8 {
                String::from_str("August")
            } else if m == 9 {
                String::from_str("September")
            } else if m == 10 {
                String::from_str("October")
            } else if m == 11 {
                String::from_str("November")
            } else {
                String::from_str("December")
            }
        },
    }
}

/// The label of a date divider: today, yesterday, or the full date in the
/// language's usual order (`3 juin 2025`, `June 3, 2025`).
pub open spec fn divider_text(
    date: CalendarDate,
    today: CalendarDate,
    yesterday: Option<CalendarDate>,
    language: UiLanguage,
) -> Seq<char> {
    if date == today {
        match language {
            UiLanguage::French => "Aujourd'hui"@,
            UiLanguage::English => "Today"@,
        }
    } else if yesterday == Some(date) {
        match language {
            UiLanguage::French => "Hier"@,
            UiLanguage::English => "Yesterday"@,
        }
    } else {
        match language {
            UiLanguage::French => decimal_text(date.day as nat) + seq![' '] + month_name_fr(
                date.month,
            ) + seq![' '] + signed_text(date.year as int),
            UiLanguage::English => month_name_en(date.month) + seq![' '] + decimal_text(
                date.day as nat,
            ) + seq![',', ' '] + signed_text(date.year as int),
        }
    }
}

/// The label of a date divider, given the day before `today`.
pub fn divider_label(
    date: CalendarDate,
    today: CalendarDate,
    yesterday: Option<CalendarDate>,
    language: UiLanguage,
) -> (r: String)
    requires
        1 <= date.month <= 12,
    ensures
        r@ == divider_text(date, today, yesterday, language),
{
    if date == today {
        return match language {
            UiLanguage::French => String::from_str("Aujourd'hui"),
            UiLanguage::English => String::from_str("Today"),
        };
    }
    let is_yesterday = match yesterday {
        Some(y) => y == date,
        None => false,
    };
    if is_yesterday {
        return match language {
            UiLanguage::French => String::from_str("Hier"),
            UiLanguage::English => String::from_str("Yesterday"),
        };
    }
    let day = decimal_string(date.day as u64);
    let month = month_name(date.month, language);
    let year = signed_string(date.year as i64);
    match language {
        UiLanguage::French => {
            let mut r = day;
            push_char(&mut r, ' ');
            r.append(month.as_str());
            push_char(&mut r, ' ');
            r.append(year.as_str());
            r
        },
        UiLanguage::English => {
            let mut r = month;
            push_char(&mut r, ' ');
            r.append(day.as_str());
            push_char(&mut r, ',');
            push_char(&mut r, ' ');
            r.append(year.as_str());
            r
        },
    }
}

/// The day before `today`, as chrono gives it.
pub open spec fn yesterday_of(today: CalendarDate) -> Option<CalendarDate> {
    match day_before(today.year, today.month, today.day) {
        Some((y, m, d)) => Some(CalendarDate { year: y, month: m, day: d }),
        None => None,
    }
}

/// The label of the divider put before the messages of `date`:
/// `Aujourd'hui`/`Today`, `Hier`/`Yesterday`, or the full date.
pub fn day_divider_label(date: CalendarDate, today: CalendarDate, language: UiLanguage) -> (r:
    String)
    requires
        1 <= date.month <= 12,
    ensures
        r@ == divider_text(date, today, yesterday_of(today), language),
        yesterday_of(today) matches Some(y) ==> valid_date(today) && is_day_before(y, today),
        valid_date(today) && -262142 <= today.year <= 262142 ==> yesterday_of(today) is Some,
{
    let yesterday = previous_date(today);
    divider_label(date, today, yesterday, language)
}

/// A character of a file name kept in a media identifier: ASCII letters and
/// digits, `.`, `-` and `_`; anything else becomes `_`.
pub open spec fn id_char(c: char) -> char {
    if ('a' <= c <= 'z') || ('A' <= c <= 'Z') || ('0' <= c <= '9') || c == '.' || c == '-' || c
        == '_' {
        c
    } else {
        '_'
    }
}

/// The identifier of a media sent at instant `micros`: the instant, a dash,
/// then the file name with its unsafe characters replaced.
pub open spec fn media_id_text(micros: int, filename: Seq<char>) -> Seq<char> {
    signed_text(micros) + seq!['-'] + filename.map_values(|c: char| id_char(c))
}

/// The identifier of a media named `filename` sent at instant `micros`.
pub fn media_id_at(micros: i64, filename: &str) -> (r: String)
    ensures
        r@ == media_id_text(micros as int, filename@),
{
    let mut r = signed_string(micros);
    push_char(&mut r, '-');
    let chars = crate::chars::to_chars(filename);
    let ghost start = r@;
    let mut i: usize = 0;
    while i < chars.len()
        invariant
            i <= chars@.len(),
            chars@ == filename@,
            r@ == start + filename@.take(i as int).map_values(|c: char| id_char(c)),
        decreases chars@.len() - i,
    {
        let c = chars[i];
        let kept = if ('a' <= c && c <= 'z') || ('A' <= c && c <= 'Z') || ('0' <= c && c <= '9')
            || c == '.' || c == '-' || c == '_' {
            c
        } else {
            '_'
        };
        push_char(&mut r, kept);
        proof {
            assert(filename@.take(i + 1).map_values(|c: char| id_char(c)) =~= filename@.take(
                i as int,
            ).map_values(|c: char| id_char(c)).push(id_char(c)));
        }
        i = i + 1;
    }
    proof {
        assert(filename@.take(i as int) =~= filename@);
    }
    r
}

/// A unique identifier for a media named `filename` (its name in the cache,
/// extension kept), made from the current instant.
pub fn media_id(filename: &str) -> (r: String)
    ensures
        exists|micros: i64| r@ == media_id_text(micros as int, filename@),
{
    let micros = now_micros();
    media_id_at(micros, filename)
}


proof fn lemma_signed_text(n: int)
    ensures
        signed_text(n).len() >= 1,
        forall|k: int| 1 <= k < signed_text(n).len() ==> '0' <= #[trigger] signed_text(n)[k] <= '9',
        (signed_text(n)[0] == '-') == (n < 0),
{
    if n < 0 {
        crate::media::lemma_decimal_digits((-n) as nat);
        let d = decimal_text((-n) as nat);
        assert forall|k: int| 1 <= k < signed_text(n).len() implies '0' <= #[trigger] signed_text(n)[k] <= '9' by {
            assert(signed_text(n)[k] == d[k - 1]);
        }
    } else {
        crate::media::lemma_decimal_digits(n as nat);
    }
}

proof fn lemma_signed_injective(a: int, b: int)
    requires
        signed_text(a) == signed_text(b),
    ensures
        a == b,
{
    lemma_signed_text(a);
    lemma_signed_text(b);
    if a < 0 {
        assert(signed_text(a).drop_first() =~= decimal_text((-a) as nat));
        assert(signed_text(b).drop_first() =~= decimal_text((-b) as nat));
        crate::media::lemma_decimal_injective((-a) as nat, (-b) as nat);
    } else {
        crate::media::lemma_decimal_injective(a as nat, b as nat);
    }
}

/// A media identifier holds only ASCII letters and digits, `.`, `-` and `_`
/// after its instant, keeps every such character of the file name (and so
/// its extension) in place, and identifiers made at different instants
/// differ.
pub proof fn media_ids_are_safe_and_unique(micros: int, other: int, filename: Seq<char>)
    requires
        micros != other,
    ensures
        ({
            let id = media_id_text(micros, filename);
            let prefix = signed_text(micros).len() + 1;
            &&& id.len() == prefix + filename.len()
            &&& forall|k: int| 0 <= k < filename.len() ==> id_char(filename[k]) == #[trigger] id[prefix + k]
            &&& forall|k: int|
                0 <= k < filename.len() ==> id_char(#[trigger] filename[k]) == filename[k] || id[prefix + k] == '_'
        }),
        media_id_text(micros, filename) != media_id_text(other, filename),
{
    let a = media_id_text(micros, filename);
    let b = media_id_text(other, filename);
    let sa = signed_text(micros);
    let sb = signed_text(other);
    lemma_signed_text(micros);
    lemma_signed_text(other);
    let mapped = filename.map_values(|c: char| id_char(c));
    assert(a =~= sa + seq!['-'] + mapped);
    assert(b =~= sb + seq!['-'] + mapped);
    assert forall|k: int| 0 <= k < filename.len() implies id_char(filename[k]) == #[trigger] a[sa.len() + 1 + k] by {
        assert(a[sa.len() + 1 + k] == mapped[k]);
    }
    if sa.len() == sb.len() {
        if forall|j: int| 0 <= j < sa.len() ==> sa[j] == sb[j] {
            assert(sa =~= sb);
            lemma_signed_injective(micros, other);
        }
        let j = choose|j: int| 0 <= j < sa.len() && sa[j] != sb[j];
        assert(a[j] == sa[j]);
        assert(b[j] == sb[j]);
    } else if sa.len() < sb.len() {
        let j = sa.len() as int;
        assert(a[j] == '-');
        assert(b[j] == sb[j]);
        assert(j >= 1);
    } else {
        let j = sb.len() as int;
        assert(b[j] == '-');
        assert(a[j] == sa[j]);
        assert(j >= 1);
    }
}

} // verus!
