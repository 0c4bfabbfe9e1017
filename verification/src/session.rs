//! Cluster start times read from Ray session names, and the uptime they give.
use vstd::prelude::*;
use crate::text::{
    chars_of, decimal, parse_pieces, parse_u64_spec, push_decimal, slices, split, split_ranges,
    utf8_prefix, utf8_prefix_end,
};
use crate::clock::{reading_ok, reading_secs, unix_secs};

verus! {

/// The characters of `"session_"`.
pub open spec fn session_prefix() -> Seq<char> {
    seq!['s', 'e', 's', 's', 'i', 'o', 'n', '_']
}

/// The date-and-time part of a session name: the first 19 bytes after the
/// `"session_"` prefix, such as `"2026-03-14_23-19-19"`.
pub open spec fn session_datetime(s: Seq<char>) -> Option<Seq<char>> {
    if s.len() >= 8 && s.take(8) == session_prefix() {
        utf8_prefix(s.skip(8), 19)
    } else {
        None
    }
}

/// The numbers of the date part (split at `-`) and of the time part (split at
/// `-` or `:`) of a session name; pieces that are not numbers are skipped.
pub open spec fn session_fields(s: Seq<char>) -> Option<(Seq<u64>, Seq<u64>)> {
    match session_datetime(s) {
        None => None,
        Some(dt) => {
            let parts = split(dt, seq!['_']);
            if parts.len() < 2 {
                None
            } else {
                Some(
                    (
                        split(parts[0], seq!['-']).filter_map(|p: Seq<char>| parse_u64_spec(p)),
                        split(parts[1], seq!['-', ':']).filter_map(
                            |p: Seq<char>| parse_u64_spec(p),
                        ),
                    ),
                )
            }
        },
    }
}

/// The days of the year before the first day of month `i + 1`.
pub open spec fn days_before_month(i: int) -> int {
    if i == 0 {
        0
    } else if i == 1 {
        31
    } else if i == 2 {
        59
    } else if i == 3 {
        90
    } else if i == 4 {
        120
    } else if i == 5 {
        151
    } else if i == 6 {
        181
    } else if i == 7 {
        212
    } else if i == 8 {
        243
    } else if i == 9 {
        273
    } else if i == 10 {
        304
    } else if i == 11 {
        334
    } else {
        0
    }
}

/// The day of the year of day `day` of month `month` in a year without a leap
/// day; a month outside 1..=12 counts no days before it.
pub open spec fn day_of_year_spec(month: u64, day: u64) -> int {
    let i = (month as usize) as int - 1;
    (if 0 <= i < 12 {
        days_before_month(i)
    } else {
        0
    }) + day
}

/// The number of days of month `m` (1 to 12) in a year without a leap day.
pub open spec fn days_in_month(m: u64) -> int {
    if m == 2 {
        28
    } else if m == 4 || m == 6 || m == 9 || m == 11 {
        30
    } else {
        31
    }
}

/// The calendar that day-of-year counting follows: January 1 is day 1, the
/// first day of each later month comes right after the last day of the month
/// before it, and December 31 is day 365.
pub proof fn lemma_day_of_year_calendar(m: u64, d: u64)
    ensures
        day_of_year_spec(1, d) == d,
        1 <= m <= 11 ==> day_of_year_spec((m + 1) as u64, 1) == day_of_year_spec(
            m,
            days_in_month(m) as u64,
        ) + 1,
        1 <= m <= 12 ==> day_of_year_spec(m, d) == day_of_year_spec(m, 1) + d - 1,
        day_of_year_spec(12, 31) == 365,
{
}

/// Consecutive calendar days are one day apart in the count from the Unix
/// epoch, across the end of every month; January 1, 1970 is day 0.
pub proof fn lemma_epoch_days_consecutive(y: u64, m: u64, d: u64)
    ensures
        epoch_days(1970, 1, 1) == 0,
        1 <= m <= 12 ==> epoch_days(y, m, (d + 1) as u64) == epoch_days(y, m, d) + 1 || d
            == u64::MAX,
        1 <= m <= 11 ==> epoch_days(y, (m + 1) as u64, 1) == epoch_days(
            y,
            m,
            days_in_month(m) as u64,
        ) + 1,
{
    lemma_day_of_year_calendar(m, d);
}

/// The days from the Unix epoch to the given date, with one leap day for every
/// fourth year after 1969.
pub open spec fn epoch_days(y: u64, mo: u64, d: u64) -> int {
    (y - 1970) * 365 + (y - 1969) / 4 + day_of_year_spec(mo, d) - 1
}

/// The approximate Unix time of the given date and time of day.
pub open spec fn epoch_seconds(ymd: Seq<u64>, hms: Seq<u64>) -> int {
    epoch_days(ymd[0], ymd[1], ymd[2]) * 86400 + hms[0] * 3600 + hms[1] * 60 + hms[2]
}

/// Whether computing the start time of `s` stays within `u64`: the year is at
/// least 1970, the month is not 0, the day count before subtracting one is
/// positive and the result fits.
pub open spec fn session_start_defined(s: Seq<char>) -> bool {
    match session_fields(s) {
        Some((ymd, hms)) => (ymd.len() == 3 && hms.len() == 3) ==> {
            &&& ymd[0] >= 1970
            &&& (ymd[1] as usize) >= 1
            &&& epoch_days(ymd[0], ymd[1], ymd[2]) >= 0
            &&& epoch_seconds(ymd, hms) <= u64::MAX
        },
        None => true,
    }
}

/// The cluster start time that a session name encodes: `None` unless the name
/// has the `"session_"` prefix, at least 19 bytes after it, and three numbers
/// in each of its date and time parts.
pub open spec fn session_start(s: Seq<char>) -> Option<u64> {
    match session_fields(s) {
        Some((ymd, hms)) => if ymd.len() == 3 && hms.len() == 3 {
            Some(epoch_seconds(ymd, hms) as u64)
        } else {
            None
        },
        None => None,
    }
}

fn days_before(i: usize) -> (r: u64)
    requires
        i < 12,
    ensures
        r == days_before_month(i as int),
{
    if i == 0 {
        0
    } else if i == 1 {
        31
    } else if i == 2 {
        59
    } else if i == 3 {
        90
    } else if i == 4 {
        120
    } else if i == 5 {
        151
    } else if i == 6 {
        181
    } else if i == 7 {
        212
    } else if i == 8 {
        243
    } else if i == 9 {
        273
    } else if i == 10 {
        304
    } else {
        334
    }
}

/// The day of the year of day `day` of month `month`, counting no leap day.
pub fn day_of_year(month: u64, day: u64) -> (r: u64)
    requires
        (month as usize) >= 1,
        day_of_year_spec(month, day) <= u64::MAX,
    ensures
        r == day_of_year_spec(month, day),
{
    let m = month as usize;
    let before = if m - 1 < 12 {
        days_before(m - 1)
    } else {
        0
    };
    before + day
}

/// The numbers of the date part and of the time part of a session name.
pub fn session_numbers(session: &str) -> (r: Option<(Vec<u64>, Vec<u64>)>)
    ensures
        match r {
            Some((ymd, hms)) => session_fields(session@) == Some((ymd@, hms@)),
            None => session_fields(session@) is None,
        },
{
    let cs = chars_of(session);
    if cs.len() < 8 {
        return None;
    }
    if !(cs[0] == 's' && cs[1] == 'e' && cs[2] == 's' && cs[3] == 's' && cs[4] == 'i' && cs[5]
        == 'o' && cs[6] == 'n' && cs[7] == '_') {
        assert(cs@.take(8)[0] != session_prefix()[0] || cs@.take(8)[1] != session_prefix()[1]
            || cs@.take(8)[2] != session_prefix()[2] || cs@.take(8)[3] != session_prefix()[3]
            || cs@.take(8)[4] != session_prefix()[4] || cs@.take(8)[5] != session_prefix()[5]
            || cs@.take(8)[6] != session_prefix()[6] || cs@.take(8)[7] != session_prefix()[7]);
        return None;
    }
    assert(cs@.take(8) =~= session_prefix());
    assert(cs@.skip(8) =~= cs@.subrange(8, cs@.len() as int));
    let end = match utf8_prefix_end(cs.as_slice(), 8, 19) {
        Some(e) => e,
        None => {
            return None;
        },
    };
    let ghost dt = cs@.subrange(8, end as int);
    assert(session_datetime(session@) == Some(dt));
    let underscore = ['_'];
    let parts = split_ranges(cs.as_slice(), 8, end, underscore.as_slice());
    assert(underscore@ =~= seq!['_']);
    if parts.len() < 2 {
        assert(slices(cs@, parts@).len() == parts@.len());
        return None;
    }
    let (d0, d1) = parts[0];
    let (t0, t1) = parts[1];
    assert(slices(cs@, parts@)[0] == cs@.subrange(d0 as int, d1 as int));
    assert(slices(cs@, parts@)[1] == cs@.subrange(t0 as int, t1 as int));
    let dash = ['-'];
    let dash_colon = ['-', ':'];
    assert(dash@ =~= seq!['-']);
    assert(dash_colon@ =~= seq!['-', ':']);
    let date_pieces = split_ranges(cs.as_slice(), d0, d1, dash.as_slice());
    let time_pieces = split_ranges(cs.as_slice(), t0, t1, dash_colon.as_slice());
    let ymd = parse_pieces(cs.as_slice(), &date_pieces);
    let hms = parse_pieces(cs.as_slice(), &time_pieces);
    Some((ymd, hms))
}

/// Whether computing the start time of `session` stays within `u64` (see
/// `session_start_defined`); the computation panics on the other names.
pub fn session_start_is_defined(session: &str) -> (r: bool)
    ensures
        r == session_start_defined(session@),
{
    match session_numbers(session) {
        Some((ymd, hms)) => {
            if ymd.len() != 3 || hms.len() != 3 {
                return true;
            }
            if ymd[0] < 1970 || (ymd[1] as usize) < 1 {
                return false;
            }
            let y = ymd[0];
            let m = ymd[1] as usize;
            let before: u128 = if m - 1 < 12 {
                days_before(m - 1) as u128
            } else {
                0
            };
            let days1: u128 = ((y - 1970) as u128) * 365 + ((y - 1969) / 4) as u128 + before
                + ymd[2] as u128;
            assert(days1 == epoch_days(ymd@[0], ymd@[1], ymd@[2]) + 1);
            if days1 < 1 {
                return false;
            }
            let total: u128 = (days1 - 1) * 86400 + (hms[0] as u128) * 3600 + (hms[1] as u128) * 60
                + (hms[2] as u128);
            assert(total == epoch_seconds(ymd@, hms@));
            total <= 0xFFFF_FFFF_FFFF_FFFF
        },
        None => true,
    }
}

/// Parses the cluster start time out of a session name such as
/// `"session_2026-03-14_23-19-19_186273_1"`, as an approximate Unix time.
pub fn parse_session_start(session: &str) -> (r: Option<u64>)
    requires
        session_start_defined(session@),
    ensures
        r == session_start(session@),
{
    let (ymd, hms) = match session_numbers(session) {
        Some(f) => f,
        None => {
            return None;
        },
    };
    if ymd.len() != 3 || hms.len() != 3 {
        return None;
    }
    let y = ymd[0];
    let mo = ymd[1];
    let d = ymd[2];
    let h = hms[0];
    let mi = hms[1];
    let s = hms[2];
    let a: u128 = ((y - 1970) as u128) * 365 + ((y - 1969) / 4) as u128;
    let ghost doy = day_of_year_spec(mo, d);
    assert(doy <= u64::MAX) by {
        assert(epoch_days(y, mo, d) * 86400 <= u64::MAX);
    }
    let doy_exec = day_of_year(mo, d);
    let days: u128 = a + doy_exec as u128 - 1;
    let total: u128 = days * 86400 + (h as u128) * 3600 + (mi as u128) * 60 + (s as u128);
    assert(total == epoch_seconds(ymd@, hms@));
    Some(total as u64)
}

/// The uptime that a start time and the current time give: whole days, hours
/// and minutes past a day (`"2d 3h 4m"`), otherwise hours and minutes
/// (`"5h 6m"`); empty without a start time.
pub open spec fn uptime_text(start: Option<u64>, now: u64) -> Seq<char> {
    match start {
        None => seq![],
        Some(st) => {
            let secs: nat = if now > st {
                (now - st) as nat
            } else {
                0
            };
            if secs > 86400 {
                decimal(secs / 86400) + seq!['d', ' '] + decimal((secs % 86400) / 3600) + seq![
                    'h',
                    ' ',
                ] + decimal((secs % 3600) / 60) + seq!['m']
            } else {
                decimal(secs / 3600) + seq!['h', ' '] + decimal((secs % 3600) / 60) + seq!['m']
            }
        },
    }
}

/// The uptime shown for a start time is the time since it, rounded down to the
/// minute: `d` days, `h` hours and `m` minutes (days only past one whole day,
/// hours below 24 when days are shown, minutes below 60) that add up to the
/// seconds from `start` to `now` (none when `now` is not after it), less the
/// seconds of the last, unfinished minute.
pub proof fn lemma_uptime_splits_elapsed(start: u64, now: u64)
    ensures
        exists|d: nat, h: nat, m: nat|
            #![trigger decimal(d), decimal(h), decimal(m)]
            {
                let secs: int = if now > start {
                    now - start
                } else {
                    0
                };
                &&& m < 60
                &&& d * 86400 + h * 3600 + m * 60 <= secs < d * 86400 + h * 3600 + m * 60 + 60
                &&& uptime_text(Some(start), now) == if secs > 86400 {
                    decimal(d) + seq!['d', ' '] + decimal(h) + seq!['h', ' '] + decimal(m) + seq![
                        'm',
                    ]
                } else {
                    decimal(h) + seq!['h', ' '] + decimal(m) + seq!['m']
                }
                &&& secs > 86400 ==> h < 24
                &&& secs <= 86400 ==> d == 0
            },
{
    let secs: nat = if now > start {
        (now - start) as nat
    } else {
        0
    };
    if secs > 86400 {
        let d = secs / 86400;
        let h = (secs % 86400) / 3600;
        let m = (secs % 3600) / 60;
        assert(d * 86400 + h * 3600 + m * 60 <= secs < d * 86400 + h * 3600 + m * 60 + 60 && h
            < 24 && m < 60) by (nonlinear_arith)
            requires
                d == secs / 86400,
                h == (secs % 86400) / 3600,
                m == (secs % 3600) / 60,
        ;
        assert(uptime_text(Some(start), now) == decimal(d) + seq!['d', ' '] + decimal(h) + seq![
            'h',
            ' ',
        ] + decimal(m) + seq!['m']);
    } else {
        let h = secs / 3600;
        let m = (secs % 3600) / 60;
        assert(h * 3600 + m * 60 <= secs < h * 3600 + m * 60 + 60 && m < 60) by (nonlinear_arith)
            requires
                h == secs / 3600,
                m == (secs % 3600) / 60,
        ;
        assert(uptime_text(Some(start), now) == decimal(h) + seq!['h', ' '] + decimal(m) + seq![
            'm',
        ]);
        assert(0nat * 86400 + h * 3600 + m * 60 == h * 3600 + m * 60);
        assert(decimal(0) == seq!['0']);
    }
}

/// The uptime of the cluster named by `session` at Unix time `now`.
pub fn format_uptime_at(session: &str, now: u64) -> (r: String)
    requires
        session_start_defined(session@),
    ensures
        r@ == uptime_text(session_start(session@), now),
{
    let start = match parse_session_start(session) {
        Some(st) => st,
        None => {
            return String::new();
        },
    };
    let secs = if now > start {
        now - start
    } else {
        0
    };
    let mut out = String::new();
    if secs > 86400 {
        push_decimal(&mut out, secs / 86400);
        out.push('d');
        out.push(' ');
        push_decimal(&mut out, (secs % 86400) / 3600);
        out.push('h');
        out.push(' ');
        push_decimal(&mut out, (secs % 3600) / 60);
        out.push('m');
    } else {
        push_decimal(&mut out, secs / 3600);
        out.push('h');
        out.push(' ');
        push_decimal(&mut out, (secs % 3600) / 60);
        out.push('m');
    }
    assert(out@ =~= uptime_text(session_start(session@), now));
    out
}

/// The uptime of the cluster named by `session`, measured against the system
/// clock (0 when the clock stands before the Unix epoch).
pub fn format_uptime(session: &str) -> (r: String)
    requires
        session_start_defined(session@),
    ensures
        exists|now: u64| r@ == uptime_text(session_start(session@), now),
        exists|t: Option<(u64, u32)>|
            reading_ok(t) && r@ == uptime_text(session_start(session@), reading_secs(t)),
        session_start(session@) is None ==> r@.len() == 0,
{
    let (now, Ghost(t)) = unix_secs();
    let r = format_uptime_at(session, now);
    assert(reading_ok(t) && r@ == uptime_text(session_start(session@), reading_secs(t)));
    r
}

} // verus!
