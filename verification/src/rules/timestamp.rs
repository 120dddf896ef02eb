//! Org timestamps: `<YYYY-MM-DD DAY HH:MM REPEATER WARNING>` and the `[...]` inactive form.
use vstd::prelude::*;
use crate::text::{
    char_is_ascii_alpha, char_is_digit, contains, find_char, find_char_at, is_ascii_alpha, is_digit,
    lemma_find_char_bound, parse_unsigned, parse_unsigned_at, ranges_view, split_char, split_ranges,
    starts_with, starts_with_str, str_chars, string_of, ws_token_ranges, ws_tokens,
};

verus! {

/// A parsed org timestamp.
#[derive(Debug, PartialEq)]
pub struct OrgTimestamp {
    pub year: u16,
    pub month: u8,
    pub day: u8,
    /// Day-of-week abbreviation, such as `"Mon"`.
    pub dayname: Option<String>,
    pub hour: Option<u8>,
    pub minute: Option<u8>,
    /// Repeater, such as `"+1w"`, `"++2m"` or `".+3d"`.
    pub repeater: Option<String>,
    /// Warning delay, such as `"-3d"`.
    pub warning: Option<String>,
    /// `true` for `<...>`, `false` for `[...]`.
    pub active: bool,
}

/// The optional fields of a timestamp, as sequences.
pub struct TsFields {
    pub dayname: Option<Seq<char>>,
    pub hour: Option<u8>,
    pub minute: Option<u8>,
    pub repeater: Option<Seq<char>>,
    pub warning: Option<Seq<char>>,
}

/// A timestamp as plain values.
pub struct TsView {
    pub year: u16,
    pub month: u8,
    pub day: u8,
    pub fields: TsFields,
    pub active: bool,
}

pub open spec fn opt_view(o: Option<String>) -> Option<Seq<char>> {
    match o {
        Some(s) => Some(s@),
        None => None,
    }
}

impl OrgTimestamp {
    pub open spec fn view_ts(&self) -> TsView {
        TsView {
            year: self.year,
            month: self.month,
            day: self.day,
            fields: TsFields {
                dayname: opt_view(self.dayname),
                hour: self.hour,
                minute: self.minute,
                repeater: opt_view(self.repeater),
                warning: opt_view(self.warning),
            },
            active: self.active,
        }
    }
}

/// `str::parse::<u8>` as an option.
pub open spec fn parse_u8(t: Seq<char>) -> Option<u8> {
    match parse_unsigned(t, 255) {
        Some(v) => Some(v as u8),
        None => None,
    }
}

/// How one word after the date changes the optional fields.
pub open spec fn ts_step(part: Seq<char>, acc: TsFields) -> TsFields {
    if contains(part, seq![':']) && part.len() > 0 && is_digit(part[0]) {
        let time_str = split_char(part, '-')[0];
        let tp = split_char(time_str, ':');
        if tp.len() == 2 {
            TsFields { hour: parse_u8(tp[0]), minute: parse_u8(tp[1]), ..acc }
        } else {
            acc
        }
    } else if starts_with(part, "+"@) || starts_with(part, ".+"@) {
        TsFields { repeater: Some(part), ..acc }
    } else if starts_with(part, "-"@) && part.len() > 1 && is_digit(part[1]) {
        TsFields { warning: Some(part), ..acc }
    } else if part.len() > 0 && is_ascii_alpha(part[0]) {
        TsFields { dayname: Some(part), ..acc }
    } else {
        acc
    }
}

/// The optional fields after folding the words `parts[i..]` into `acc`.
pub open spec fn ts_fold(parts: Seq<Seq<char>>, i: int, acc: TsFields) -> TsFields
    decreases parts.len() - i,
{
    if i >= parts.len() || i < 0 {
        acc
    } else {
        ts_fold(parts, i + 1, ts_step(parts[i], acc))
    }
}

pub open spec fn no_fields() -> TsFields {
    TsFields { dayname: None, hour: None, minute: None, repeater: None, warning: None }
}

/// The timestamp that starts at offset `pos` of `text`, and the offset after it.
pub open spec fn parse_timestamp_spec(text: Seq<char>, pos: int) -> Option<(TsView, int)> {
    let rest = text.skip(pos);
    if rest.len() == 0 || (rest[0] != '<' && rest[0] != '[') {
        None
    } else {
        let active = rest[0] == '<';
        let close = if active { '>' } else { ']' };
        match find_char(rest, close) {
            None => None,
            Some(end) => {
                let parts = ws_tokens(rest.subrange(1, end));
                if parts.len() == 0 {
                    None
                } else {
                    let dp = split_char(parts[0], '-');
                    if dp.len() != 3 {
                        None
                    } else {
                        match (parse_unsigned(dp[0], 65535), parse_u8(dp[1]), parse_u8(dp[2])) {
                            (Some(y), Some(m), Some(d)) => Some(
                                (
                                    TsView {
                                        year: y as u16,
                                        month: m,
                                        day: d,
                                        fields: ts_fold(parts, 1, no_fields()),
                                        active,
                                    },
                                    pos + end + 1,
                                ),
                            ),
                            _ => None,
                        }
                    }
                }
            },
        }
    }
}

/// The optional fields for one word `s[a..e]` after the date.
fn ts_step_exec(
    s: &[char],
    a: usize,
    e: usize,
    dayname: &mut Option<String>,
    hour: &mut Option<u8>,
    minute: &mut Option<u8>,
    repeater: &mut Option<String>,
    warning: &mut Option<String>,
)
    requires
        a <= e <= s@.len(),
    ensures
        ts_step(
            s@.subrange(a as int, e as int),
            TsFields {
                dayname: opt_view(*old(dayname)),
                hour: *old(hour),
                minute: *old(minute),
                repeater: opt_view(*old(repeater)),
                warning: opt_view(*old(warning)),
            },
        ) == (TsFields {
            dayname: opt_view(*final(dayname)),
            hour: *final(hour),
            minute: *final(minute),
            repeater: opt_view(*final(repeater)),
            warning: opt_view(*final(warning)),
        }),
{
    let ghost part = s@.subrange(a as int, e as int);
    let colon = find_char_at(s, a, e, ':');
    proof {
        crate::text::lemma_find_single(part, ':');
        assert(contains(part, seq![':']) == colon.is_some());
    }
    if e > a {
        assert(part[0] == s@[a as int]);
    }
    if e - a > 1 {
        assert(part[1] == s@[a + 1]);
    }
    if colon.is_some() && e > a && char_is_digit(s[a]) {
        let pieces = split_ranges(s, a, e, '-');
        proof {
            crate::text::lemma_split_char_len(part, '-');
        }
        assert(ranges_view(s@, pieces@)[0] == s@.subrange(pieces@[0].0 as int, pieces@[0].1 as int));
        let (x, y) = pieces[0];
        let tp = split_ranges(s, x, y, ':');
        if tp.len() == 2 {
            assert(ranges_view(s@, tp@)[0] == s@.subrange(tp@[0].0 as int, tp@[0].1 as int));
            assert(ranges_view(s@, tp@)[1] == s@.subrange(tp@[1].0 as int, tp@[1].1 as int));
            let h = parse_unsigned_at(s, tp[0].0, tp[0].1, 255);
            let m = parse_unsigned_at(s, tp[1].0, tp[1].1, 255);
            *hour = match h {
                Some(v) => Some(v as u8),
                None => None,
            };
            *minute = match m {
                Some(v) => Some(v as u8),
                None => None,
            };
        }
    } else if starts_with_str(s, a, e, "+") || starts_with_str(s, a, e, ".+") {
        *repeater = Some(string_of(s, a, e));
    } else if starts_with_str(s, a, e, "-") && e - a > 1 && char_is_digit(s[a + 1]) {
        *warning = Some(string_of(s, a, e));
    } else if e > a && char_is_ascii_alpha(s[a]) {
        *dayname = Some(string_of(s, a, e));
    }
}

/// The timestamp that starts at character offset `pos` of `s`, and the offset after it.
pub fn parse_timestamp_at(s: &[char], pos: usize) -> (r: Option<(OrgTimestamp, usize)>)
    requires
        pos <= s@.len(),
    ensures
        r is None ==> parse_timestamp_spec(s@, pos as int) is None,
        r matches Some((ts, e)) ==> parse_timestamp_spec(s@, pos as int) == Some((ts.view_ts(), e as int))
            && pos < e <= s@.len(),
{
    let ghost rest = s@.skip(pos as int);
    if pos >= s.len() {
        return None;
    }
    assert(rest[0] == s@[pos as int]);
    let first = s[pos];
    let active = if first == '<' {
        true
    } else if first == '[' {
        false
    } else {
        return None;
    };
    let close = if active { '>' } else { ']' };
    assert(s@.subrange(pos as int, s@.len() as int) =~= rest);
    let end = match find_char_at(s, pos, s.len(), close) {
        None => return None,
        Some(k) => k,
    };
    proof {
        lemma_find_char_bound(rest, close);
    }
    assert(s@.subrange(pos + 1, end as int) =~= rest.subrange(1, end - pos));
    let parts = ws_token_ranges(s, pos + 1, end);
    let ghost pv = ranges_view(s@, parts@);
    if parts.len() == 0 {
        return None;
    }
    let (d0, d1) = parts[0];
    assert(pv[0] == s@.subrange(d0 as int, d1 as int));
    let dp = split_ranges(s, d0, d1, '-');
    if dp.len() != 3 {
        return None;
    }
    let ghost dv = ranges_view(s@, dp@);
    assert(dv[0] == s@.subrange(dp@[0].0 as int, dp@[0].1 as int));
    assert(dv[1] == s@.subrange(dp@[1].0 as int, dp@[1].1 as int));
    assert(dv[2] == s@.subrange(dp@[2].0 as int, dp@[2].1 as int));
    let year = match parse_unsigned_at(s, dp[0].0, dp[0].1, 65535) {
        Some(v) => v as u16,
        None => return None,
    };
    let month = match parse_unsigned_at(s, dp[1].0, dp[1].1, 255) {
        Some(v) => v as u8,
        None => return None,
    };
    let day = match parse_unsigned_at(s, dp[2].0, dp[2].1, 255) {
        Some(v) => v as u8,
        None => return None,
    };
    let mut dayname: Option<String> = None;
    let mut hour: Option<u8> = None;
    let mut minute: Option<u8> = None;
    let mut repeater: Option<String> = None;
    let mut warning: Option<String> = None;
    let mut i: usize = 1;
    while i < parts.len()
        invariant
            1 <= i <= parts@.len(),
            pv == ranges_view(s@, parts@),
            forall|j: int| 0 <= j < parts@.len() ==> pos + 1 <= (#[trigger] parts@[j]).0 <= parts@[j].1 <= end,
            end <= s@.len(),
            ts_fold(pv, 1, no_fields()) == ts_fold(
                pv,
                i as int,
                TsFields {
                    dayname: opt_view(dayname),
                    hour,
                    minute,
                    repeater: opt_view(repeater),
                    warning: opt_view(warning),
                },
            ),
        decreases parts.len() - i,
    {
        let (a, e) = parts[i];
        assert(pv[i as int] == s@.subrange(a as int, e as int));
        ts_step_exec(s, a, e, &mut dayname, &mut hour, &mut minute, &mut repeater, &mut warning);
        i += 1;
    }
    let ts = OrgTimestamp { year, month, day, dayname, hour, minute, repeater, warning, active };
    Some((ts, end + 1))
}

/// The timestamp that starts at character offset `pos` of `text`, and the offset after it.
pub fn parse_timestamp(text: &str, pos: usize) -> (r: Option<(OrgTimestamp, usize)>)
    requires
        pos <= text@.len(),
    ensures
        r is None ==> parse_timestamp_spec(text@, pos as int) is None,
        r matches Some((ts, e)) ==> parse_timestamp_spec(text@, pos as int) == Some((ts.view_ts(), e as int)),
{
    let s = str_chars(text);
    parse_timestamp_at(s.as_slice(), pos)
}

/// Gregorian leap year.
pub open spec fn leap_year(year: int) -> bool {
    (year % 4 == 0 && year % 100 != 0) || year % 400 == 0
}

/// Number of days of a month, for months 1 to 12.
pub open spec fn days_in_month(year: int, month: int) -> int {
    if month == 2 {
        if leap_year(year) {
            29
        } else {
            28
        }
    } else if month == 4 || month == 6 || month == 9 || month == 11 {
        30
    } else {
        31
    }
}

/// Whether the date exists in the Gregorian calendar.
pub open spec fn valid_date(year: int, month: int, day: int) -> bool {
    1 <= month <= 12 && 1 <= day <= days_in_month(year, month)
}

pub fn is_leap_year(year: u16) -> (b: bool)
    ensures
        b == leap_year(year as int),
{
    (year % 4 == 0 && year % 100 != 0) || year % 400 == 0
}

/// Whether the date exists in the Gregorian calendar.
pub fn is_valid_date(year: u16, month: u8, day: u8) -> (b: bool)
    ensures
        b == valid_date(year as int, month as int, day as int),
{
    if month == 0 || month > 12 || day == 0 {
        return false;
    }
    let dim: u8 = if month == 1 || month == 3 || month == 5 || month == 7 || month == 8 || month == 10 || month == 12 {
        31
    } else if month == 4 || month == 6 || month == 9 || month == 11 {
        30
    } else if is_leap_year(year) {
        29
    } else {
        28
    };
    day <= dim
}

/// Whether `c` is a unit of a repeater or warning: y, m, w, d or h.
pub open spec fn is_unit(c: char) -> bool {
    c == 'y' || c == 'm' || c == 'w' || c == 'd' || c == 'h'
}

/// A count and a unit, as `+1w`'s `1w`: digits that parse as a `u32`, then a unit.
pub open spec fn count_unit(rest: Seq<char>) -> bool {
    rest.len() > 0 && is_unit(rest.last()) && parse_unsigned(rest.drop_last(), 0xffff_ffff) is Some
}

/// Whether the repeater is valid: `.+`, `++` or `+`, then a count and a unit.
pub open spec fn valid_repeater(s: Seq<char>) -> bool {
    if starts_with(s, ".+"@) {
        count_unit(s.skip(2))
    } else if starts_with(s, "++"@) {
        count_unit(s.skip(2))
    } else if starts_with(s, "+"@) {
        count_unit(s.skip(1))
    } else {
        false
    }
}

/// Whether the warning delay is valid: `--` or `-`, then a count and a unit.
pub open spec fn valid_warning(s: Seq<char>) -> bool {
    if starts_with(s, "--"@) {
        count_unit(s.skip(2))
    } else if starts_with(s, "-"@) {
        count_unit(s.skip(1))
    } else {
        false
    }
}

/// `count_unit` on `s[lo..hi]`.
fn count_unit_at(s: &[char], lo: usize, hi: usize) -> (b: bool)
    requires
        lo <= hi <= s@.len(),
    ensures
        b == count_unit(s@.subrange(lo as int, hi as int)),
{
    let ghost rest = s@.subrange(lo as int, hi as int);
    if hi == lo {
        return false;
    }
    let u = s[hi - 1];
    assert(rest.last() == u);
    assert(s@.subrange(lo as int, hi - 1) =~= rest.drop_last());
    (u == 'y' || u == 'm' || u == 'w' || u == 'd' || u == 'h') && parse_unsigned_at(s, lo, hi - 1, 0xffff_ffff).is_some()
}

/// Whether the repeater string is valid, such as `+1w`, `++2m` or `.+3d`.
pub fn is_valid_repeater(s: &str) -> (b: bool)
    ensures
        b == valid_repeater(s@),
{
    let v = str_chars(s);
    let c = v.as_slice();
    let n = c.len();
    assert(c@.subrange(0, n as int) =~= s@);
    proof {
        reveal_strlit(".+");
        reveal_strlit("++");
        reveal_strlit("+");
    }
    if starts_with_str(c, 0, n, ".+") {
        assert(c@.subrange(2, n as int) =~= s@.skip(2));
        count_unit_at(c, 2, n)
    } else if starts_with_str(c, 0, n, "++") {
        assert(c@.subrange(2, n as int) =~= s@.skip(2));
        count_unit_at(c, 2, n)
    } else if starts_with_str(c, 0, n, "+") {
        assert(c@.subrange(1, n as int) =~= s@.skip(1));
        count_unit_at(c, 1, n)
    } else {
        false
    }
}

/// Whether the warning delay string is valid, such as `-3d` or `--2w`.
pub fn is_valid_warning(s: &str) -> (b: bool)
    ensures
        b == valid_warning(s@),
{
    let v = str_chars(s);
    let c = v.as_slice();
    let n = c.len();
    assert(c@.subrange(0, n as int) =~= s@);
    proof {
        reveal_strlit("--");
        reveal_strlit("-");
    }
    if starts_with_str(c, 0, n, "--") {
        assert(c@.subrange(2, n as int) =~= s@.skip(2));
        count_unit_at(c, 2, n)
    } else if starts_with_str(c, 0, n, "-") {
        assert(c@.subrange(1, n as int) =~= s@.skip(1));
        count_unit_at(c, 1, n)
    } else {
        false
    }
}

/// The timestamps found scanning `t` from offset `pos`, each with its start and end offsets.
pub open spec fn timestamps_from(t: Seq<char>, pos: int) -> Seq<(TsView, int, int)>
    decreases t.len() - pos,
{
    if pos < 0 || pos >= t.len() {
        Seq::empty()
    } else if (t[pos] == '<' || t[pos] == '[') && parse_timestamp_spec(t, pos) is Some {
        let (ts, e) = parse_timestamp_spec(t, pos)->0;
        if pos < e <= t.len() {
            seq![(ts, pos, e)] + timestamps_from(t, e)
        } else {
            Seq::empty()
        }
    } else {
        timestamps_from(t, pos + 1)
    }
}

/// All timestamps in a line, each with its start and end character offsets.
pub fn find_timestamps(line: &str) -> (r: Vec<(OrgTimestamp, usize, usize)>)
    ensures
        r@.map_values(|x: (OrgTimestamp, usize, usize)| (x.0.view_ts(), x.1 as int, x.2 as int)) == timestamps_from(line@, 0),
{
    let v = str_chars(line);
    let s = v.as_slice();
    let mut results: Vec<(OrgTimestamp, usize, usize)> = Vec::new();
    let mut pos: usize = 0;
    while pos < s.len()
        invariant
            pos <= s@.len(),
            s@ == line@,
            results@.map_values(|x: (OrgTimestamp, usize, usize)| (x.0.view_ts(), x.1 as int, x.2 as int))
                + timestamps_from(s@, pos as int) == timestamps_from(s@, 0),
        decreases s.len() - pos,
    {
        let ch = s[pos];
        if ch == '<' || ch == '[' {
            if let Some((ts, end_pos)) = parse_timestamp_at(s, pos) {
                let ghost before = results@.map_values(|x: (OrgTimestamp, usize, usize)| (x.0.view_ts(), x.1 as int, x.2 as int));
                results.push((ts, pos, end_pos));
                assert(results@.map_values(|x: (OrgTimestamp, usize, usize)| (x.0.view_ts(), x.1 as int, x.2 as int))
                    =~= before.push((results@.last().0.view_ts(), pos as int, end_pos as int))) by {
                    assert(results@.last().1 == pos);
                };
                pos = end_pos;
                continue;
            }
        }
        pos += 1;
    }
    assert(timestamps_from(s@, pos as int) =~= Seq::empty());
    results
}

} // verus!
