use vstd::prelude::*;

use crate::commands::same_text;
use crate::json::{json_document, parse_json, JsonValue};
use crate::paths::{file_name_of, file_name_text};
use crate::types::{ImageId, ImageRecord};

verus! {

/// Whether a character separates the fields of an EXIF date-time
/// (`YYYY:MM:DD HH:MM:SS`).
pub open spec fn is_field_separator(c: char) -> bool {
    c == ':' || c == ' '
}

/// The fields of a text split at every separator, empty fields included,
/// as `str::split` gives them: one field more than there are separators.
pub open spec fn split_fields(s: Seq<char>) -> Seq<Seq<char>>
    decreases s.len(),
{
    if s.len() == 0 {
        seq![Seq::<char>::empty()]
    } else {
        let rest = split_fields(s.drop_last());
        if is_field_separator(s.last()) {
            rest.push(Seq::<char>::empty())
        } else {
            rest.update(rest.len() - 1, rest.last().push(s.last()))
        }
    }
}

proof fn lemma_split_fields_nonempty(s: Seq<char>)
    ensures
        split_fields(s).len() >= 1,
    decreases s.len(),
{
    if s.len() > 0 {
        lemma_split_fields_nonempty(s.drop_last());
    }
}

/// An ASCII decimal digit.
pub open spec fn is_digit(c: char) -> bool {
    '0' <= c <= '9'
}

/// Every character of the text is an ASCII decimal digit.
pub open spec fn all_digits(s: Seq<char>) -> bool {
    forall|i: int| 0 <= i < s.len() ==> is_digit(#[trigger] s[i])
}

/// The value of a text of decimal digits.
pub open spec fn digits_value(s: Seq<char>) -> nat
    decreases s.len(),
{
    if s.len() == 0 {
        0
    } else {
        digits_value(s.drop_last()) * 10 + ((s.last() as int) - ('0' as int)) as nat
    }
}

/// The value of one or more decimal digits, where it is at most `limit`.
pub open spec fn bounded_digits(s: Seq<char>, limit: int) -> Option<nat> {
    if s.len() > 0 && all_digits(s) && digits_value(s) <= limit {
        Some(digits_value(s))
    } else {
        None
    }
}

/// A text parsed as a `u32` the way `str::parse::<u32>` does it: an
/// optional `+`, then decimal digits whose value fits.
pub open spec fn parse_u32_text(s: Seq<char>) -> Option<u32> {
    let body = if s.len() > 0 && s[0] == '+' {
        s.drop_first()
    } else {
        s
    };
    match bounded_digits(body, u32::MAX as int) {
        Some(v) => Some(v as u32),
        None => None,
    }
}

/// A text parsed as an `i32` the way `str::parse::<i32>` does it: an
/// optional `+` or `-`, then decimal digits whose signed value fits.
pub open spec fn parse_i32_text(s: Seq<char>) -> Option<i32> {
    if s.len() > 0 && s[0] == '-' {
        match bounded_digits(s.drop_first(), 0x8000_0000) {
            Some(v) => Some((-v) as i32),
            None => None,
        }
    } else {
        let body = if s.len() > 0 && s[0] == '+' {
            s.drop_first()
        } else {
            s
        };
        match bounded_digits(body, i32::MAX as int) {
            Some(v) => Some(v as i32),
            None => None,
        }
    }
}

/// Integer division rounding toward zero, as Rust's `/` on signed integers.
pub open spec fn div_toward_zero(a: int, b: int) -> int {
    if a >= 0 {
        a / b
    } else {
        -((-a) / b)
    }
}

/// Whether computing the day number of a date subtracts one from the
/// smallest `i32` year (which overflows).
pub open spec fn date_year_underflows(year: i32, month: u32, day: u32) -> bool {
    &&& year == i32::MIN
    &&& 1 <= month <= 2
    &&& 1 <= day <= 31
}

/// Days since 1970-01-01 of a date of the proleptic Gregorian calendar,
/// counting years from March; `None` for a month outside 1..=12 or a day
/// outside 1..=31. The day is not checked against the month's length.
pub open spec fn date_days(year: i32, month: u32, day: u32) -> Option<int> {
    if !(1 <= month <= 12) || !(1 <= day <= 31) {
        None
    } else {
        let y: int = if month <= 2 {
            year - 1
        } else {
            year as int
        };
        let m: int = if month <= 2 {
            month + 9
        } else {
            month - 3
        };
        Some(
            365 * y + div_toward_zero(y, 4) - div_toward_zero(y, 100) + div_toward_zero(y, 400) + (m
                * 306 + 5) / 10 + day - 719469,
        )
    }
}

/// Whether a year of the proleptic Gregorian calendar is a leap year.
pub open spec fn is_leap_year(year: int) -> bool {
    year % 4 == 0 && (year % 100 != 0 || year % 400 == 0)
}

/// Number of days of a month of the proleptic Gregorian calendar.
pub open spec fn month_length(year: int, month: int) -> int {
    if month == 2 {
        if is_leap_year(year) {
            29
        } else {
            28
        }
    } else if month == 4 || month == 6 || month == 9 || month == 11 {
        30
    } else {
        31
    }
}

/// The calendar day after a valid date.
pub open spec fn next_date(year: i32, month: u32, day: u32) -> (i32, u32, u32) {
    if day < month_length(year as int, month as int) {
        (year, month, (day + 1) as u32)
    } else if month < 12 {
        (year, (month + 1) as u32, 1)
    } else {
        ((year + 1) as i32, 1, 1)
    }
}

/// From a valid date of a year from 1 on, the next calendar day has the
/// next day number: the day numbers count the days of the Gregorian
/// calendar, leap days included.
pub proof fn law_next_day_is_one_more(year: i32, month: u32, day: u32)
    requires
        1 <= year < i32::MAX,
        1 <= month <= 12,
        1 <= day <= month_length(year as int, month as int),
    ensures
        ({
            let (y2, m2, d2) = next_date(year, month, day);
            &&& date_days(year, month, day) is Some
            &&& date_days(y2, m2, d2) == Some(date_days(year, month, day).unwrap() + 1)
        }),
{
    let y = year as int;
    assert(y / 4 - (y - 1) / 4 == if y % 4 == 0 { 1int } else { 0int });
    assert(y / 100 - (y - 1) / 100 == if y % 100 == 0 { 1int } else { 0int });
    assert(y / 400 - (y - 1) / 400 == if y % 400 == 0 { 1int } else { 0int });
    assert((0 * 306 + 5) / 10 == 0);
    assert((1 * 306 + 5) / 10 == 31);
    assert((2 * 306 + 5) / 10 == 61);
    assert((3 * 306 + 5) / 10 == 92);
    assert((4 * 306 + 5) / 10 == 122);
    assert((5 * 306 + 5) / 10 == 153);
    assert((6 * 306 + 5) / 10 == 184);
    assert((7 * 306 + 5) / 10 == 214);
    assert((8 * 306 + 5) / 10 == 245);
    assert((9 * 306 + 5) / 10 == 275);
    assert((10 * 306 + 5) / 10 == 306);
    assert((11 * 306 + 5) / 10 == 337);
}

/// The six numeric fields of an EXIF date-time (year, month, day, hour,
/// minute, second), where its first six fields all parse.
pub open spec fn datetime_fields(s: Seq<char>) -> Option<(i32, u32, u32, u32, u32, u32)> {
    let p = split_fields(s);
    if p.len() < 6 {
        None
    } else {
        match (
            parse_i32_text(p[0]),
            parse_u32_text(p[1]),
            parse_u32_text(p[2]),
            parse_u32_text(p[3]),
            parse_u32_text(p[4]),
            parse_u32_text(p[5]),
        ) {
            (Some(y), Some(mo), Some(d), Some(h), Some(mi), Some(se)) => Some((y, mo, d, h, mi, se)),
            _ => None,
        }
    }
}

/// Seconds since the Unix epoch of an EXIF date-time such as
/// `2024:06:15 14:30:00`, read as UTC; hour, minute and second are not
/// range-checked.
pub open spec fn exif_seconds(s: Seq<char>) -> Option<int> {
    match datetime_fields(s) {
        None => None,
        Some((y, mo, d, h, mi, se)) => match date_days(y, mo, d) {
            None => None,
            Some(days) => Some(days * 86400 + h * 3600 + mi * 60 + se),
        },
    }
}

/// Whether reading the EXIF date-time would subtract one from the smallest
/// `i32` year.
pub open spec fn exif_datetime_underflows(s: Seq<char>) -> bool {
    match datetime_fields(s) {
        None => false,
        Some((y, mo, d, h, mi, se)) => date_year_underflows(y, mo, d),
    }
}

/// Bounds of the fields of `s` (see `split_fields`).
fn field_spans(s: &str) -> (r: Vec<(usize, usize)>)
    ensures
        r@.len() == split_fields(s@).len(),
        forall|k: int|
            0 <= k < r@.len() ==> (#[trigger] r@[k]).0 <= r@[k].1 && r@[k].1 <= s@.len() && s@.subrange(
                r@[k].0 as int,
                r@[k].1 as int,
            ) == split_fields(s@)[k],
{
    let n = s.unicode_len();
    let mut spans: Vec<(usize, usize)> = Vec::new();
    let mut start: usize = 0;
    let mut i: usize = 0;
    assert(s@.take(0) =~= Seq::<char>::empty());
    assert(s@.subrange(0, 0) =~= Seq::<char>::empty());
    while i < n
        invariant
            i <= n,
            n == s@.len(),
            start <= i,
            spans@.len() + 1 == split_fields(s@.take(i as int)).len(),
            forall|k: int|
                0 <= k < spans@.len() ==> (#[trigger] spans@[k]).0 <= spans@[k].1 && spans@[k].1 <= i && s@.subrange(
                    spans@[k].0 as int,
                    spans@[k].1 as int,
                ) == split_fields(s@.take(i as int))[k],
            s@.subrange(start as int, i as int) == split_fields(s@.take(i as int))[spans@.len() as int],
        decreases n - i,
    {
        let c = s.get_char(i);
        let ghost prev = split_fields(s@.take(i as int));
        assert(s@.take(i + 1).drop_last() =~= s@.take(i as int));
        assert(s@.take(i + 1).last() == c);
        let ghost old_spans = spans@;
        let ghost old_start = start;
        if c == ':' || c == ' ' {
            spans.push((start, i));
            start = i + 1;
            let ghost next = split_fields(s@.take(i + 1));
            assert(next == prev.push(Seq::<char>::empty()));
            assert(s@.subrange(start as int, i + 1) =~= Seq::<char>::empty());
            assert forall|k: int| 0 <= k < spans@.len() implies (#[trigger] spans@[k]).0 <= spans@[k].1 && spans@[k].1 <= i + 1
                && s@.subrange(spans@[k].0 as int, spans@[k].1 as int) == next[k] by {
                if k < old_spans.len() {
                    assert(spans@[k] == old_spans[k]);
                    assert(next[k] == prev[k]);
                } else {
                    assert(spans@[k] == (old_start, i));
                    assert(next[k] == prev[k]);
                }
            }
        } else {
            let ghost next = split_fields(s@.take(i + 1));
            assert(next == prev.update(prev.len() - 1, prev.last().push(c)));
            assert(s@.subrange(start as int, i + 1) =~= s@.subrange(start as int, i as int).push(c));
            assert forall|k: int| 0 <= k < spans@.len() implies (#[trigger] spans@[k]).0 <= spans@[k].1 && spans@[k].1 <= i + 1
                && s@.subrange(spans@[k].0 as int, spans@[k].1 as int) == next[k] by {
                assert(next[k] == prev[k]);
            }
        }
        i = i + 1;
    }
    let ghost old_spans = spans@;
    spans.push((start, n));
    assert(s@.take(n as int) =~= s@);
    assert forall|k: int| 0 <= k < spans@.len() implies (#[trigger] spans@[k]).0 <= spans@[k].1 && spans@[k].1 <= s@.len()
        && s@.subrange(spans@[k].0 as int, spans@[k].1 as int) == split_fields(s@)[k] by {
        if k < old_spans.len() {
            assert(spans@[k] == old_spans[k]);
            assert(split_fields(s@.take(i as int))[k] == split_fields(s@)[k]);
        } else {
            assert(spans@[k] == (start, n));
        }
    }
    spans
}

proof fn lemma_digits_value_grows(s: Seq<char>, c: char)
    requires
        is_digit(c),
    ensures
        digits_value(s.push(c)) == digits_value(s) * 10 + ((c as int) - ('0' as int)),
        digits_value(s.push(c)) >= digits_value(s),
{
    assert(s.push(c).drop_last() =~= s);
}

/// The value of the digits `s[lo..hi]`, where there is at least one, all
/// are digits and the value is at most `limit`.
fn read_digits(s: &str, lo: usize, hi: usize, limit: u64) -> (r: Option<u64>)
    requires
        lo <= hi <= s@.len(),
        limit <= 0x1_0000_0000,
    ensures
        match bounded_digits(s@.subrange(lo as int, hi as int), limit as int) {
            Some(v) => r == Some(v as u64),
            None => r is None,
        },
{
    let mut value: u64 = 0;
    let mut over = false;
    let mut i: usize = lo;
    assert(s@.subrange(lo as int, lo as int) =~= Seq::<char>::empty());
    while i < hi
        invariant
            lo <= i <= hi,
            hi <= s@.len(),
            limit <= 0x1_0000_0000,
            all_digits(s@.subrange(lo as int, i as int)),
            over ==> digits_value(s@.subrange(lo as int, i as int)) > limit,
            !over ==> value == digits_value(s@.subrange(lo as int, i as int)) && value <= limit,
        decreases hi - i,
    {
        let c = s.get_char(i);
        let ghost prefix = s@.subrange(lo as int, i as int);
        assert(s@.subrange(lo as int, i + 1) =~= prefix.push(c));
        if !('0' <= c && c <= '9') {
            assert(!all_digits(s@.subrange(lo as int, hi as int))) by {
                assert(s@.subrange(lo as int, hi as int)[i - lo] == c);
            }
            return None;
        }
        proof {
            lemma_digits_value_grows(prefix, c);
        }
        if !over {
            let d = (c as u32 - '0' as u32) as u64;
            value = value * 10 + d;
            if value > limit {
                over = true;
            }
        }
        i = i + 1;
    }
    if hi == lo || over {
        return None;
    }
    Some(value)
}

/// `s[lo..hi]` parsed as a `u32` (see `parse_u32_text`).
fn parse_u32_field(s: &str, lo: usize, hi: usize) -> (r: Option<u32>)
    requires
        lo <= hi <= s@.len(),
    ensures
        r == parse_u32_text(s@.subrange(lo as int, hi as int)),
{
    let ghost f = s@.subrange(lo as int, hi as int);
    let mut from = lo;
    if lo < hi && s.get_char(lo) == '+' {
        from = lo + 1;
        assert(f.drop_first() =~= s@.subrange(from as int, hi as int));
    } else {
        assert(f =~= s@.subrange(from as int, hi as int));
    }
    match read_digits(s, from, hi, 0xffff_ffff) {
        Some(v) => Some(v as u32),
        None => None,
    }
}

/// `s[lo..hi]` parsed as an `i32` (see `parse_i32_text`).
fn parse_i32_field(s: &str, lo: usize, hi: usize) -> (r: Option<i32>)
    requires
        lo <= hi <= s@.len(),
    ensures
        r == parse_i32_text(s@.subrange(lo as int, hi as int)),
{
    let ghost f = s@.subrange(lo as int, hi as int);
    if lo < hi && s.get_char(lo) == '-' {
        assert(f.drop_first() =~= s@.subrange(lo + 1, hi as int));
        match read_digits(s, lo + 1, hi, 0x8000_0000) {
            Some(v) => {
                let r = (0 - (v as i64)) as i32;
                Some(r)
            },
            None => None,
        }
    } else {
        let mut from = lo;
        if lo < hi && s.get_char(lo) == '+' {
            from = lo + 1;
            assert(f.drop_first() =~= s@.subrange(from as int, hi as int));
        } else {
            assert(f =~= s@.subrange(from as int, hi as int));
        }
        match read_digits(s, from, hi, 0x7fff_ffff) {
            Some(v) => Some(v as i32),
            None => None,
        }
    }
}

/// Days since 1970-01-01 of a date (see `date_days`): `None` for a month
/// outside 1..=12 or a day outside 1..=31.
pub fn days_from_date(year: i32, month: u32, day: u32) -> (r: Option<i64>)
    requires
        !date_year_underflows(year, month, day),
    ensures
        match date_days(year, month, day) {
            Some(d) => r matches Some(v) && v == d,
            None => r is None,
        },
        r matches Some(v) ==> -800_000_000_000 <= v <= 800_000_000_000,
{
    if !(1 <= month && month <= 12) || !(1 <= day && day <= 31) {
        return None;
    }
    let y: i64 = if month <= 2 {
        (year - 1) as i64
    } else {
        year as i64
    };
    let m: i64 = if month <= 2 {
        (month + 9) as i64
    } else {
        (month - 3) as i64
    };
    let d = day as i64;
    Some(365 * y + y / 4 - y / 100 + y / 400 + (m * 306 + 5) / 10 + d - 719469)
}

/// The six numeric fields of an EXIF date-time (see `datetime_fields`).
fn read_datetime_fields(s: &str) -> (r: Option<(i32, u32, u32, u32, u32, u32)>)
    ensures
        r == datetime_fields(s@),
{
    let spans = field_spans(s);
    if spans.len() < 6 {
        return None;
    }
    let ghost p = split_fields(s@);
    assert(p[0] == s@.subrange(spans@[0].0 as int, spans@[0].1 as int));
    assert(p[1] == s@.subrange(spans@[1].0 as int, spans@[1].1 as int));
    assert(p[2] == s@.subrange(spans@[2].0 as int, spans@[2].1 as int));
    assert(p[3] == s@.subrange(spans@[3].0 as int, spans@[3].1 as int));
    assert(p[4] == s@.subrange(spans@[4].0 as int, spans@[4].1 as int));
    assert(p[5] == s@.subrange(spans@[5].0 as int, spans@[5].1 as int));
    let year = parse_i32_field(s, spans[0].0, spans[0].1);
    let month = parse_u32_field(s, spans[1].0, spans[1].1);
    let day = parse_u32_field(s, spans[2].0, spans[2].1);
    let hour = parse_u32_field(s, spans[3].0, spans[3].1);
    let minute = parse_u32_field(s, spans[4].0, spans[4].1);
    let second = parse_u32_field(s, spans[5].0, spans[5].1);
    match (year, month, day, hour, minute, second) {
        (Some(y), Some(mo), Some(d), Some(h), Some(mi), Some(se)) => Some((y, mo, d, h, mi, se)),
        _ => None,
    }
}

/// Whether reading the EXIF date-time `s` would subtract one from the
/// smallest `i32` year (see `exif_datetime_underflows`).
pub fn datetime_underflows(s: &str) -> (r: bool)
    ensures
        r == exif_datetime_underflows(s@),
{
    match read_datetime_fields(s) {
        Some((year, month, day, _, _, _)) => year == i32::MIN && 1 <= month && month <= 2 && 1 <= day
            && day <= 31,
        None => false,
    }
}

/// Seconds since the Unix epoch of an EXIF date-time such as
/// `2024:06:15 14:30:00` (see `exif_seconds`); `None` where it does not
/// have that shape.
pub fn parse_exif_datetime(s: &str) -> (r: Option<i64>)
    requires
        !exif_datetime_underflows(s@),
    ensures
        match exif_seconds(s@) {
            Some(t) => r matches Some(v) && v == t,
            None => r is None,
        },
{
    let (year, month, day, hour, minute, second) = match read_datetime_fields(s) {
        Some(f) => f,
        None => return None,
    };
    let days = match days_from_date(year, month, day) {
        Some(d) => d,
        None => return None,
    };
    Some(days * 86400 + (hour as i64) * 3600 + (minute as i64) * 60 + (second as i64))
}

/// The embedded images of a RAW file that can serve as its preview, in the
/// order they are asked for.
#[derive(Debug, Clone, Copy, PartialEq, Eq, Structural)]
pub enum PreviewSource {
    JpgFromRaw,
    PreviewImage,
    OtherImage,
}

impl PreviewSource {
    /// The embedded image asked for first.
    pub fn first() -> (r: Self)
        ensures
            r == PreviewSource::JpgFromRaw,
    {
        PreviewSource::JpgFromRaw
    }

    /// After asking for `self` and getting `output_is_empty`, the source to
    /// ask next: none once an output is non-empty (it is the preview) or
    /// when `self` is the last source (its output is the preview).
    pub fn next(self, output_is_empty: bool) -> (r: Option<Self>)
        ensures
            !output_is_empty ==> r is None,
            output_is_empty ==> r == match self {
                PreviewSource::JpgFromRaw => Some(PreviewSource::PreviewImage),
                PreviewSource::PreviewImage => Some(PreviewSource::OtherImage),
                PreviewSource::OtherImage => None::<PreviewSource>,
            },
    {
        if !output_is_empty {
            return None;
        }
        match self {
            PreviewSource::JpgFromRaw => Some(PreviewSource::PreviewImage),
            PreviewSource::PreviewImage => Some(PreviewSource::OtherImage),
            PreviewSource::OtherImage => None,
        }
    }

    /// The exiftool tag that names this embedded image.
    pub fn tag(self) -> (r: &'static str)
        ensures
            r@ == match self {
                PreviewSource::JpgFromRaw => "JpgFromRaw"@,
                PreviewSource::PreviewImage => "PreviewImage"@,
                PreviewSource::OtherImage => "OtherImage"@,
            },
    {
        match self {
            PreviewSource::JpgFromRaw => "JpgFromRaw",
            PreviewSource::PreviewImage => "PreviewImage",
            PreviewSource::OtherImage => "OtherImage",
        }
    }
}

/// The EXIF tags of a RAW file that ingestion keeps, as its metadata gave
/// them.
#[derive(Debug, Clone)]
pub struct ExifTags {
    pub date_time_original: Option<String>,
    pub make: Option<String>,
    pub model: Option<String>,
    pub iso: Option<u64>,
}

/// Value of the last entry of a JSON object with the given key.
pub open spec fn object_field(fields: Seq<(String, JsonValue)>, key: Seq<char>) -> Option<JsonValue>
    decreases fields.len(),
{
    if fields.len() == 0 {
        None
    } else if fields.last().0@ == key {
        Some(fields.last().1)
    } else {
        object_field(fields.drop_last(), key)
    }
}

/// The entries of the object that exiftool's `-j` output holds first: its
/// output is an array with one object per file. No entries where the
/// document is anything else.
pub open spec fn first_exif_object(doc: Option<JsonValue>) -> Seq<(String, JsonValue)> {
    match doc {
        Some(JsonValue::Array(items)) => if items@.len() > 0 {
            match items@[0] {
                JsonValue::Object(fields) => fields@,
                _ => Seq::empty(),
            }
        } else {
            Seq::empty()
        },
        _ => Seq::empty(),
    }
}

/// The text a JSON value holds, where it is a string.
pub open spec fn json_text(v: Option<JsonValue>) -> Option<String> {
    match v {
        Some(JsonValue::Text(t)) => Some(t),
        _ => None,
    }
}

/// The unsigned integer a JSON value holds, where it is such a number.
pub open spec fn json_u64(v: Option<JsonValue>) -> Option<u64> {
    match v {
        Some(JsonValue::Number(Some(n))) => Some(n),
        _ => None,
    }
}

/// The EXIF tags read from exiftool's JSON output: the `DateTimeOriginal`,
/// `Make` and `Model` strings and the `ISO` number of its first object.
pub open spec fn spec_exif_tags(doc: Option<JsonValue>) -> ExifTags {
    let f = first_exif_object(doc);
    ExifTags {
        date_time_original: json_text(object_field(f, "DateTimeOriginal"@)),
        make: json_text(object_field(f, "Make"@)),
        model: json_text(object_field(f, "Model"@)),
        iso: json_u64(object_field(f, "ISO"@)),
    }
}

/// Index of the last entry of an object with the given key.
fn find_field(fields: &Vec<(String, JsonValue)>, key: &str) -> (r: Option<usize>)
    ensures
        match r {
            Some(k) => k < fields@.len() && object_field(fields@, key@) == Some(fields@[k as int].1),
            None => object_field(fields@, key@) is None,
        },
{
    let mut k: usize = fields.len();
    assert(fields@.take(k as int) =~= fields@);
    while k > 0
        invariant
            k <= fields@.len(),
            object_field(fields@, key@) == object_field(fields@.take(k as int), key@),
        decreases k,
    {
        let ghost t = fields@.take(k as int);
        assert(t.drop_last() =~= fields@.take(k - 1));
        if same_text(fields[k - 1].0.as_str(), key) {
            return Some(k - 1);
        }
        k = k - 1;
    }
    None
}

/// The text of an object's entry, where it is a string.
fn text_field(fields: &Vec<(String, JsonValue)>, key: &str) -> (r: Option<String>)
    ensures
        r == json_text(object_field(fields@, key@)),
{
    match find_field(fields, key) {
        Some(k) => match &fields[k].1 {
            JsonValue::Text(t) => Some(t.clone()),
            _ => None,
        },
        None => None,
    }
}

/// The unsigned integer of an object's entry, where it is such a number.
fn u64_field(fields: &Vec<(String, JsonValue)>, key: &str) -> (r: Option<u64>)
    ensures
        r == json_u64(object_field(fields@, key@)),
{
    match find_field(fields, key) {
        Some(k) => match &fields[k].1 {
            JsonValue::Number(Some(n)) => Some(*n),
            _ => None,
        },
        None => None,
    }
}

/// The EXIF tags in a parsed exiftool `-j` document (see
/// `spec_exif_tags`): a document that is not an array whose first element
/// is an object gives no tags.
pub fn exif_tags_of(doc: &Option<JsonValue>) -> (r: ExifTags)
    ensures
        r == spec_exif_tags(*doc),
{
    let empty: Vec<(String, JsonValue)> = Vec::new();
    let fields: &Vec<(String, JsonValue)> = match doc {
        Some(JsonValue::Array(items)) => if items.len() > 0 {
            match &items[0] {
                JsonValue::Object(f) => f,
                _ => &empty,
            }
        } else {
            &empty
        },
        _ => &empty,
    };
    assert(fields@ == first_exif_object(*doc));
    ExifTags {
        date_time_original: text_field(fields, "DateTimeOriginal"),
        make: text_field(fields, "Make"),
        model: text_field(fields, "Model"),
        iso: u64_field(fields, "ISO"),
    }
}

/// The EXIF tags in exiftool's `-j` output: output that is not JSON gives
/// no tags.
pub fn exif_tags_from_json(exif_json: &[u8]) -> (r: ExifTags)
    ensures
        r == spec_exif_tags(json_document(exif_json@)),
{
    let doc = parse_json(exif_json);
    exif_tags_of(&doc)
}

/// Why a RAW file could not be ingested.
#[derive(Debug, Clone)]
pub enum ExtractError {
    /// None of the embedded images had any bytes.
    NoEmbeddedPreview { file_name: String },
}

/// Width and height of the image encoded in `bytes`, where its format can
/// be told from its first bytes and its header read.
pub uninterp spec fn encoded_image_dimensions(bytes: Seq<u8>) -> Option<(u32, u32)>;

/// Trusted: `image::ImageReader::new` over the bytes, `with_guessed_format`
/// and `into_dimensions`. The result is named, not stated: it is what the
/// format's decoder reads from the header, `None` where no format is
/// recognised or the header cannot be read. No guessing hook is registered
/// by this crate, so the format is told by the bytes alone.
#[verifier::external_body]
fn read_image_dimensions(bytes: &[u8]) -> (r: Option<(u32, u32)>)
    ensures
        r == encoded_image_dimensions(bytes@),
{
    match image::ImageReader::new(std::io::Cursor::new(bytes)).with_guessed_format() {
        Ok(reader) => reader.into_dimensions().ok(),
        Err(_) => None,
    }
}

/// Preview dimensions of a RAW file: those of its preview image, or (0, 0)
/// where they cannot be read.
pub open spec fn preview_dimensions(preview: Seq<u8>) -> (u32, u32) {
    match encoded_image_dimensions(preview) {
        Some(d) => d,
        None => (0, 0),
    }
}

/// Capture time of a RAW file, in milliseconds since the Unix epoch, from
/// its EXIF `DateTimeOriginal`; none where that does not parse or the time
/// in milliseconds does not fit in an `i64`.
pub open spec fn capture_time(date_time_original: Option<String>) -> Option<i64> {
    match date_time_original {
        Some(t) => match exif_seconds(t@) {
            Some(v) => if i64::MIN <= 1000 * v <= i64::MAX {
                Some((1000 * v) as i64)
            } else {
                None
            },
            None => None,
        },
        None => None,
    }
}

/// ISO speed as kept: the EXIF value cut to its low 32 bits.
pub open spec fn iso_speed(iso: Option<u64>) -> Option<u32> {
    match iso {
        Some(v) => Some((v % 0x1_0000_0000) as u32),
        None => None,
    }
}

/// Whether the EXIF date-time of the tags would underflow the year (see
/// `exif_datetime_underflows`).
pub open spec fn tags_underflow(tags: ExifTags) -> bool {
    tags.date_time_original matches Some(t) && exif_datetime_underflows(t@)
}

fn low_32_bits(v: u64) -> (r: u32)
    ensures
        r == v % 0x1_0000_0000,
{
    assert(v & 0xffff_ffff == v % 0x1_0000_0000) by (bit_vector);
    (v & 0xffff_ffff) as u32
}

/// The record of a RAW file at `raw_path` with non-empty preview bytes,
/// given the dimensions read from them and the EXIF tags read from the
/// file.
pub fn assemble_record(
    id: ImageId,
    raw_path: &str,
    preview_data: Vec<u8>,
    dimensions: Option<(u32, u32)>,
    tags: ExifTags,
) -> (rec: ImageRecord)
    requires
        !tags_underflow(tags),
    ensures
        rec.id == id,
        rec.file_path@ == raw_path@,
        rec.file_name@ == file_name_text(raw_path@),
        rec.timestamp == capture_time(tags.date_time_original),
        rec.camera_make == tags.make,
        rec.camera_model == tags.model,
        rec.iso == iso_speed(tags.iso),
        (rec.preview_width, rec.preview_height) == match dimensions {
            Some(d) => d,
            None => (0u32, 0u32),
        },
        rec.preview_data@ == preview_data@,
{
    let (preview_width, preview_height) = match dimensions {
        Some(d) => d,
        None => (0, 0),
    };
    let timestamp = match &tags.date_time_original {
        Some(t) => match parse_exif_datetime(t.as_str()) {
            Some(seconds) => seconds.checked_mul(1000),
            None => None,
        },
        None => None,
    };
    let iso = match tags.iso {
        Some(v) => Some(low_32_bits(v)),
        None => None,
    };
    ImageRecord {
        id,
        file_path: String::from_str(raw_path),
        file_name: file_name_of(raw_path),
        timestamp,
        camera_make: tags.make,
        camera_model: tags.model,
        iso,
        preview_width,
        preview_height,
        preview_data,
    }
}

/// The record of a RAW file at `raw_path`, from the preview bytes and EXIF
/// tags read from it: the dimensions are read from the preview; fails when
/// there are no preview bytes.
pub fn extract_preview(id: ImageId, raw_path: &str, preview_data: Vec<u8>, tags: ExifTags) -> (r: Result<ImageRecord, ExtractError>)
    requires
        !tags_underflow(tags),
    ensures
        preview_data@.len() == 0 <==> r is Err,
        r matches Err(ExtractError::NoEmbeddedPreview { file_name }) ==> file_name@ == file_name_text(
            raw_path@,
        ),
        r matches Ok(rec) ==> {
            &&& rec.id == id
            &&& rec.file_path@ == raw_path@
            &&& rec.file_name@ == file_name_text(raw_path@)
            &&& rec.timestamp == capture_time(tags.date_time_original)
            &&& rec.camera_make == tags.make
            &&& rec.camera_model == tags.model
            &&& rec.iso == iso_speed(tags.iso)
            &&& (rec.preview_width, rec.preview_height) == preview_dimensions(preview_data@)
            &&& rec.preview_data@ == preview_data@
        },
{
    if preview_data.len() == 0 {
        return Err(ExtractError::NoEmbeddedPreview { file_name: file_name_of(raw_path) });
    }
    let dimensions = read_image_dimensions(preview_data.as_slice());
    Ok(assemble_record(id, raw_path, preview_data, dimensions, tags))
}

} // verus!
