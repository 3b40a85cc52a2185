//! The names of backups: `addons-backup-` and the date and time of their making.
use crate::text;
use crate::text::{
    dec, digit_char, digit_value, digits_value, is_digit, parse_up_to, pieces, replaced,
    strip_prefix_spec, strip_suffix_spec, texts,
};
use vstd::prelude::*;
use vstd::string::*;

verus! {

pub const BACKUP_PREFIX: &'static str = "addons-backup-";

// ---------------------------------------------------------------------------
// The calendar
// ---------------------------------------------------------------------------

pub open spec fn leap_year(y: int) -> bool {
    y % 4 == 0 && (y % 100 != 0 || y % 400 == 0)
}

pub open spec fn month_days(y: int, m: int) -> int {
    if m == 2 {
        if leap_year(y) {
            29
        } else {
            28
        }
    } else if m == 4 || m == 6 || m == 9 || m == 11 {
        30
    } else {
        31
    }
}

/// The days of a year before month `m`.
pub open spec fn days_before_month(y: int, m: int) -> int
    decreases m,
{
    if m <= 1 {
        0
    } else {
        days_before_month(y, m - 1) + month_days(y, m - 1)
    }
}

/// The number of a day in the Gregorian calendar; the first of January of the
/// year 1 is day 1.
pub open spec fn day_number(y: int, m: int, d: int) -> int {
    365 * (y - 1) + (y - 1) / 4 - (y - 1) / 100 + (y - 1) / 400 + days_before_month(y, m) + d
}

/// A day of the calendar, in the years that `chrono` covers.
pub open spec fn valid_date(y: int, m: int, d: int) -> bool {
    -262143 <= y <= 262142 && 1 <= m <= 12 && 1 <= d <= month_days(y, m)
}

pub open spec fn valid_time(h: int, mi: int, s: int) -> bool {
    0 <= h < 24 && 0 <= mi < 60 && 0 <= s < 60
}

/// The seconds from the start of 1970 to a date and time, both in UTC.
pub open spec fn unix_seconds(y: int, m: int, d: int, h: int, mi: int, s: int) -> int {
    86400 * (day_number(y, m, d) - day_number(1970, 1, 1)) + 3600 * h + 60 * mi + s
}

pub open spec fn two_digits(n: int) -> Seq<char> {
    seq![digit_char((n / 10) as nat), digit_char((n % 10) as nat)]
}

/// A year in four digits; a later one has a sign.
pub open spec fn year_text(y: int) -> Seq<char> {
    if y <= 9999 {
        two_digits(y / 100) + two_digits(y % 100)
    } else {
        seq!['+'] + dec(y as nat)
    }
}

/// A date and time as a backup's name has it.
pub open spec fn stamp_of(y: int, m: int, d: int, h: int, mi: int, s: int) -> Seq<char> {
    year_text(y) + seq!['-'] + two_digits(m) + seq!['-'] + two_digits(
        d,
    ) + seq!['_'] + two_digits(h) + seq!['-'] + two_digits(mi) + seq!['-'] + two_digits(s)
}

/// A text writes a day and a time of it.
pub open spec fn writes_time(t: Seq<char>, y: int, m: int, d: int, h: int, mi: int, s: int) -> bool {
    0 <= y && 1 <= m <= 12 && 1 <= d <= month_days(y, m) && valid_time(h, mi, s) && t == stamp_of(
        y,
        m,
        d,
        h,
        mi,
        s,
    )
}

/// A text writes some day and some time of it.
pub open spec fn is_stamp(t: Seq<char>) -> bool {
    exists|y: int, m: int, d: int, h: int, mi: int, s: int| #[trigger]
        writes_time(t, y, m, d, h, mi, s)
}

/// `NaiveDate::from_ymd_opt` and `NaiveTime::from_hms_opt` of `chrono` accept the
/// days of the proleptic Gregorian calendar in the years -262143 to 262142 and
/// the times of a day without leap seconds, and nothing else;
/// `DateTime::timestamp` counts the seconds from the start of 1970.
#[verifier::external_body]
fn timestamp(y: i32, m: u32, d: u32, h: u32, mi: u32, s: u32) -> (r: Option<i64>)
    ensures
        match r {
            Some(t) => valid_date(y as int, m as int, d as int) && valid_time(
                h as int,
                mi as int,
                s as int,
            ) && t == unix_seconds(y as int, m as int, d as int, h as int, mi as int, s as int),
            None => !(valid_date(y as int, m as int, d as int) && valid_time(
                h as int,
                mi as int,
                s as int,
            )),
        },
{
    let date = chrono::NaiveDate::from_ymd_opt(y, m, d)?;
    let time = chrono::NaiveTime::from_hms_opt(h, mi, s)?;
    Some(chrono::NaiveDateTime::new(date, time).and_utc().timestamp())
}

/// `chrono::Local::now` gives the time of the call in the time zone of the machine,
/// and `DateTime::format` writes it in the form `2024-01-31_23-59-59`: some day of
/// the calendar, not before the year 0, and some time of it without a leap second.
/// Which day and time it is cannot be said. A clock that stands before 1970 makes
/// `Local::now` panic.
#[verifier::external_body]
fn local_stamp() -> (r: String)
    ensures
        is_stamp(r@),
{
    chrono::Local::now().format("%Y-%m-%d_%H-%M-%S").to_string()
}

// ---------------------------------------------------------------------------
// Names
// ---------------------------------------------------------------------------

/// The name of the backup made at the time that `stamp` writes.
pub fn backup_filename(stamp: &str) -> (r: String)
    ensures
        r@ == BACKUP_PREFIX@ + stamp@,
{
    let mut r: String = BACKUP_PREFIX.to_owned();
    r.append(stamp);
    r
}

/// A backup's name is the prefix, and a date and time.
pub open spec fn is_backup_filename(name: Seq<char>) -> bool {
    exists|stamp: Seq<char>| #[trigger] is_stamp(stamp) && name == BACKUP_PREFIX@ + stamp
}

/// The name of a backup made now: the prefix, and the local date and time.
pub fn current_backup_filename() -> (r: String)
    ensures
        is_backup_filename(r@),
{
    let stamp = local_stamp();
    backup_filename(stamp.as_str())
}

/// A number of seconds as an unsigned one; those before 1970 wrap around.
pub open spec fn unsigned_seconds(t: int) -> u64 {
    if t >= 0 {
        t as u64
    } else {
        (t + 0x1_0000_0000_0000_0000) as u64
    }
}

/// The time that three and three numbers give.
pub open spec fn numbers_time(date: Seq<Seq<char>>, time: Seq<Seq<char>>) -> Option<u64> {
    if date.len() != 3 || time.len() != 3 {
        None
    } else {
        match (
            parse_up_to(date[0], i32::MAX as nat),
            parse_up_to(date[1], u32::MAX as nat),
            parse_up_to(date[2], u32::MAX as nat),
            parse_up_to(time[0], u32::MAX as nat),
            parse_up_to(time[1], u32::MAX as nat),
            parse_up_to(time[2], u32::MAX as nat),
        ) {
            (Some(y), Some(m), Some(d), Some(h), Some(mi), Some(s)) => if valid_date(
                y as int,
                m as int,
                d as int,
            ) && valid_time(h as int, mi as int, s as int) {
                Some(
                    unsigned_seconds(
                        unix_seconds(
                            y as int,
                            m as int,
                            d as int,
                            h as int,
                            mi as int,
                            s as int,
                        ),
                    ),
                )
            } else {
                None
            },
            _ => None,
        }
    }
}

/// A stamp with spaces between date and time and colons between the numbers.
pub open spec fn spaced(stamp: Seq<char>) -> Seq<char> {
    replaced(replaced(stamp, '_', ' '), '-', ':')
}

/// The time of a stamp.
pub open spec fn stamp_time(stamp: Seq<char>) -> Option<u64> {
    let parts = pieces(spaced(stamp), ' ');
    if parts.len() != 2 {
        None
    } else {
        numbers_time(pieces(parts[0], ':'), pieces(parts[1], ':'))
    }
}

/// A backup's name without the ending of an archive.
pub open spec fn bare_name(name: Seq<char>) -> Seq<char> {
    match strip_suffix_spec(name, ".7z"@) {
        Some(n) => n,
        None => name,
    }
}

/// The time that a backup's name tells, in seconds from the start of 1970.
pub open spec fn backup_time(name: Seq<char>) -> Option<u64> {
    match strip_prefix_spec(bare_name(name), BACKUP_PREFIX@) {
        Some(stamp) => stamp_time(stamp),
        None => None,
    }
}

// ---------------------------------------------------------------------------
// What a name tells is the time it was made from
// ---------------------------------------------------------------------------

proof fn lemma_char_at(s: Seq<char>, c: char, k: int, i: int)
    requires
        0 <= k <= i <= s.len(),
        forall|j: int| k <= j < i ==> s[j] != c,
        i < s.len() ==> s[i] == c,
    ensures
        text::char_from(s, c, k) == i,
{
    text::lemma_char_from(s, c, k);
}

/// Three pieces between two separators.
proof fn lemma_three_pieces(s: Seq<char>, c: char, i: int, j: int)
    requires
        0 <= i < j < s.len(),
        s[i] == c,
        s[j] == c,
        forall|k: int| 0 <= k < s.len() && k != i && k != j ==> s[k] != c,
    ensures
        pieces(s, c) == seq![s.subrange(0, i), s.subrange(i + 1, j), s.skip(j + 1)],
{
    lemma_char_at(s, c, 0, i);
    lemma_char_at(s, c, i + 1, j);
    lemma_char_at(s, c, j + 1, s.len() as int);
    assert(text::pieces_from(s, c, j + 1) == seq![s.skip(j + 1)]);
    assert(text::pieces_from(s, c, i + 1) == seq![s.subrange(i + 1, j)] + text::pieces_from(
        s,
        c,
        j + 1,
    ));
    assert(pieces(s, c) =~= seq![s.subrange(0, i), s.subrange(i + 1, j), s.skip(j + 1)]);
}

/// Two pieces around a separator.
proof fn lemma_two_pieces(s: Seq<char>, c: char, i: int)
    requires
        0 <= i < s.len(),
        s[i] == c,
        forall|k: int| 0 <= k < s.len() && k != i ==> s[k] != c,
    ensures
        pieces(s, c) == seq![s.subrange(0, i), s.skip(i + 1)],
{
    lemma_char_at(s, c, 0, i);
    lemma_char_at(s, c, i + 1, s.len() as int);
    assert(text::pieces_from(s, c, i + 1) == seq![s.skip(i + 1)]);
    assert(pieces(s, c) =~= seq![s.subrange(0, i), s.skip(i + 1)]);
}

proof fn lemma_digit_char(n: int)
    requires
        0 <= n < 10,
    ensures
        is_digit(digit_char(n as nat)),
        digit_value(digit_char(n as nat)) == n,
{
}

proof fn lemma_read_two(n: int, max: nat)
    requires
        0 <= n < 100 <= max,
    ensures
        parse_up_to(two_digits(n), max) == Some(n as nat),
{
    let t = two_digits(n);
    lemma_digit_char(n / 10);
    lemma_digit_char(n % 10);
    assert(t.drop_last().drop_last() =~= Seq::<char>::empty());
    assert(digits_value(t.drop_last().drop_last()) == 0);
    assert(digits_value(t.drop_last()) == n / 10);
    assert(digits_value(t) == n);
    assert(text::all_digits(t));
}

proof fn lemma_read_four(y: int, max: nat)
    requires
        0 <= y < 10000 <= max,
    ensures
        parse_up_to(two_digits(y / 100) + two_digits(y % 100), max) == Some(y as nat),
{
    let a = two_digits(y / 100);
    let b = two_digits(y % 100);
    let t = a + b;
    lemma_digit_char(y / 100 / 10);
    lemma_digit_char(y / 100 % 10);
    lemma_digit_char(y % 100 / 10);
    lemma_digit_char(y % 100 % 10);
    assert(a.drop_last().drop_last() =~= Seq::<char>::empty());
    assert(digits_value(a.drop_last().drop_last()) == 0);
    assert(digits_value(a.drop_last()) == y / 100 / 10);
    assert(digits_value(a) == y / 100);
    assert(t.drop_last().drop_last() =~= a);
    assert(t.drop_last().last() == b[0]);
    assert(digits_value(t.drop_last()) == y / 100 * 10 + y % 100 / 10);
    assert(digits_value(t) == y);
    assert(text::all_digits(t));
}

/// A backup's name tells the time that it was made from.
pub proof fn law_backup_names_tell_their_time(y: int, m: int, d: int, h: int, mi: int, s: int)
    requires
        0 <= y <= 9999,
        valid_date(y, m, d),
        valid_time(h, mi, s),
    ensures
        backup_time(BACKUP_PREFIX@ + stamp_of(y, m, d, h, mi, s)) == Some(
            unsigned_seconds(unix_seconds(y, m, d, h, mi, s)),
        ),
{
    let stamp = stamp_of(y, m, d, h, mi, s);
    let name = BACKUP_PREFIX@ + stamp;
    lemma_digit_char(y / 100 / 10);
    lemma_digit_char(y / 100 % 10);
    lemma_digit_char(y % 100 / 10);
    lemma_digit_char(y % 100 % 10);
    lemma_digit_char(m / 10);
    lemma_digit_char(m % 10);
    lemma_digit_char(d / 10);
    lemma_digit_char(d % 10);
    lemma_digit_char(h / 10);
    lemma_digit_char(h % 10);
    lemma_digit_char(mi / 10);
    lemma_digit_char(mi % 10);
    lemma_digit_char(s / 10);
    lemma_digit_char(s % 10);
    reveal_strlit(".7z");
    assert(stamp.len() == 19);
    assert(name.last() == stamp[18]);
    assert(".7z"@.last() == 'z');
    if strip_suffix_spec(name, ".7z"@) is Some {
        assert(name.skip(name.len() - 3).last() == 'z');
    }
    assert(bare_name(name) == name);
    assert(name.take(BACKUP_PREFIX@.len() as int) =~= BACKUP_PREFIX@);
    assert(name.skip(BACKUP_PREFIX@.len() as int) =~= stamp);
    let sp = spaced(stamp);
    assert(sp.len() == 19);
    lemma_two_pieces(sp, ' ', 10);
    let date = sp.subrange(0, 10);
    let time = sp.skip(11);
    lemma_three_pieces(date, ':', 4, 7);
    lemma_three_pieces(time, ':', 2, 5);
    lemma_read_four(y, i32::MAX as nat);
    lemma_read_two(m, u32::MAX as nat);
    lemma_read_two(d, u32::MAX as nat);
    lemma_read_two(h, u32::MAX as nat);
    lemma_read_two(mi, u32::MAX as nat);
    lemma_read_two(s, u32::MAX as nat);
    assert(date.subrange(0, 4) =~= two_digits(y / 100) + two_digits(y % 100));
    assert(date.subrange(5, 7) =~= two_digits(m));
    assert(date.skip(8) =~= two_digits(d));
    assert(time.subrange(0, 2) =~= two_digits(h));
    assert(time.subrange(3, 5) =~= two_digits(mi));
    assert(time.skip(6) =~= two_digits(s));
    assert(stamp_time(stamp) == numbers_time(pieces(date, ':'), pieces(time, ':')));
}

fn read_numbers(date: &Vec<String>, time: &Vec<String>) -> (r: Option<u64>)
    ensures
        r == numbers_time(texts(date@), texts(time@)),
{
    assert(texts(date@).len() == date@.len());
    assert(texts(time@).len() == time@.len());
    if date.len() != 3 || time.len() != 3 {
        return None;
    }
    let y: u64 = text::parse_unsigned(date[0].as_str(), 0x7fff_ffff)?;
    let m: u32 = text::parse_u32(date[1].as_str())?;
    let d: u32 = text::parse_u32(date[2].as_str())?;
    let h: u32 = text::parse_u32(time[0].as_str())?;
    let mi: u32 = text::parse_u32(time[1].as_str())?;
    let s: u32 = text::parse_u32(time[2].as_str())?;
    let t: i64 = timestamp(y as i32, m, d, h, mi, s)?;
    if t >= 0 {
        Some(t as u64)
    } else {
        let below: u64 = (-(t + 1)) as u64;
        Some(u64::MAX - below)
    }
}

/// The time that a backup's name tells.
pub fn parse_backup_filename(name: &str) -> (r: Option<u64>)
    ensures
        r == backup_time(name@),
{
    let bare = match text::without_suffix(name, ".7z") {
        Some(n) => n,
        None => name.to_owned(),
    };
    let stamp = text::without_prefix(bare.as_str(), BACKUP_PREFIX)?;
    let first = text::replace_char(stamp.as_str(), '_', ' ');
    let spaced = text::replace_char(first.as_str(), '-', ':');
    let parts = text::split_at_char(spaced.as_str(), ' ');
    assert(texts(parts@).len() == parts@.len());
    if parts.len() != 2 {
        return None;
    }
    assert(texts(parts@)[0] == parts@[0]@);
    assert(texts(parts@)[1] == parts@[1]@);
    let date = text::split_at_char(parts[0].as_str(), ':');
    let time = text::split_at_char(parts[1].as_str(), ':');
    read_numbers(&date, &time)
}

} // verus!
