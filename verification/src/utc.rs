//! UTC calendar: the date and time of a count of seconds since the Unix
//! epoch, written `YYYY-MM-DDTHH:MM:SSZ` (RFC 3339).

use vstd::prelude::*;
use crate::text::{chars_of, decimal, decimal_string};

verus! {

broadcast use vstd::string::group_string_axioms;

// ---------------------------------------------------------------------------
// The Gregorian calendar
// ---------------------------------------------------------------------------

pub open spec fn is_leap(y: int) -> bool {
    y % 4 == 0 && (y % 100 != 0 || y % 400 == 0)
}

pub open spec fn year_len(y: int) -> int {
    if is_leap(y) {
        366
    } else {
        365
    }
}

/// Days in month `m` (1 to 12) of year `y`.
pub open spec fn month_len(y: int, m: int) -> int {
    if m == 2 {
        if is_leap(y) {
            29
        } else {
            28
        }
    } else if m == 4 || m == 6 || m == 9 || m == 11 {
        30
    } else {
        31
    }
}

/// Days in the `n` years from 1970 on.
pub open spec fn days_of_years(n: nat) -> int
    decreases n,
{
    if n == 0 {
        0
    } else {
        days_of_years((n - 1) as nat) + year_len(1970 + n - 1)
    }
}

/// Days in the first `m` months of year `y`.
pub open spec fn days_of_months(y: int, m: nat) -> int
    decreases m,
{
    if m == 0 {
        0
    } else {
        days_of_months(y, (m - 1) as nat) + month_len(y, m as int)
    }
}

/// `y-m-d` is a date from 1970 on.
pub open spec fn is_date(y: int, m: int, d: int) -> bool {
    y >= 1970 && 1 <= m <= 12 && 1 <= d <= month_len(y, m)
}

/// Days from 1970-01-01 to `y-m-d`.
pub open spec fn epoch_day(y: int, m: int, d: int) -> int {
    days_of_years((y - 1970) as nat) + days_of_months(y, (m - 1) as nat) + d - 1
}

/// The date `day` days after 1970-01-01.
pub open spec fn date_of_day(day: int) -> (int, int, int) {
    choose|y: int, m: int, d: int| is_date(y, m, d) && epoch_day(y, m, d) == day
}

// ---------------------------------------------------------------------------
// Text
// ---------------------------------------------------------------------------

/// `n` in decimal, padded with leading zeros to at least `w` digits.
pub open spec fn padded(n: nat, w: nat) -> Seq<char> {
    if decimal(n).len() < w {
        Seq::new((w - decimal(n).len()) as nat, |i: int| '0') + decimal(n)
    } else {
        decimal(n)
    }
}

/// The RFC 3339 UTC timestamp of `secs` seconds after the Unix epoch,
/// `YYYY-MM-DDTHH:MM:SSZ` (a year past 9999 is written with all its
/// digits).
pub open spec fn utc_stamp(secs: nat) -> Seq<char> {
    let (y, m, d) = date_of_day((secs / 86400) as int);
    let t = secs % 86400;
    padded(y as nat, 4) + seq!['-'] + padded(m as nat, 2) + seq!['-'] + padded(d as nat, 2) + seq![
        'T',
    ] + padded(t / 3600, 2) + seq![':'] + padded((t % 3600) / 60, 2) + seq![':'] + padded(
        t % 60,
        2,
    ) + seq!['Z']
}

/// Seconds since the epoch of a clock reading; a clock before the epoch
/// (no reading) counts as the epoch itself.
pub open spec fn clock_secs(reading: Option<u64>) -> nat {
    match reading {
        Some(s) => s as nat,
        None => 0,
    }
}

/// A padded number is its decimal digits after as many zeros as make it
/// `w` long (none when it is that long already).
pub proof fn law_padded(n: nat, w: nat)
    ensures
        padded(n, w).len() == if decimal(n).len() < w {
            w as int
        } else {
            decimal(n).len() as int
        },
        padded(n, w).subrange(padded(n, w).len() - decimal(n).len(), padded(n, w).len() as int)
            == decimal(n),
        forall|k: int| 0 <= k < padded(n, w).len() - decimal(n).len() ==> #[trigger] padded(n, w)[k]
            == '0',
{
    let p = padded(n, w);
    assert(p.subrange(p.len() - decimal(n).len(), p.len() as int) =~= decimal(n));
}

// ---------------------------------------------------------------------------
// Calendar facts
// ---------------------------------------------------------------------------

/// Leap-year count in closed form: `cumulative(y)` grows by the length of
/// year `y` from `y` to `y + 1`.
pub open spec fn cumulative(y: int) -> int {
    365 * y + (y - 1) / 4 - (y - 1) / 100 + (y - 1) / 400
}

proof fn lemma_cumulative_step(y: int)
    requires
        y >= 1,
    ensures
        cumulative(y + 1) - cumulative(y) == year_len(y),
{
    assert(y / 4 - (y - 1) / 4 == if y % 4 == 0 {
        1int
    } else {
        0int
    }) by (nonlinear_arith)
        requires
            y >= 1,
    ;
    assert(y / 100 - (y - 1) / 100 == if y % 100 == 0 {
        1int
    } else {
        0int
    }) by (nonlinear_arith)
        requires
            y >= 1,
    ;
    assert(y / 400 - (y - 1) / 400 == if y % 400 == 0 {
        1int
    } else {
        0int
    }) by (nonlinear_arith)
        requires
            y >= 1,
    ;
    assert(y % 100 == 0 ==> y % 4 == 0) by (nonlinear_arith);
    assert(y % 400 == 0 ==> y % 100 == 0) by (nonlinear_arith);
}

proof fn lemma_days_of_years_closed(n: nat)
    ensures
        days_of_years(n) == cumulative(1970 + n as int) - cumulative(1970),
    decreases n,
{
    if n > 0 {
        lemma_days_of_years_closed((n - 1) as nat);
        lemma_cumulative_step(1970 + n - 1);
    }
}

proof fn lemma_days_of_years_grow(a: nat, b: nat)
    requires
        a <= b,
    ensures
        days_of_years(a) + 365 * (b - a) <= days_of_years(b),
    decreases b,
{
    if a < b {
        lemma_days_of_years_grow(a, (b - 1) as nat);
    }
}

proof fn lemma_days_of_months_grow(y: int, a: nat, b: nat)
    requires
        a <= b <= 12,
    ensures
        days_of_months(y, a) + 28 * (b - a) <= days_of_months(y, b),
    decreases b,
{
    if a < b {
        lemma_days_of_months_grow(y, a, (b - 1) as nat);
    }
}

proof fn lemma_days_of_months_year(y: int)
    ensures
        days_of_months(y, 12) == year_len(y),
        clock_secs(None) == 0,
{
    reveal_with_fuel(days_of_months, 13);
}

/// The date's place in its year and its year's place since 1970.
proof fn lemma_epoch_day_bounds(y: int, m: int, d: int)
    requires
        is_date(y, m, d),
    ensures
        days_of_years((y - 1970) as nat) <= epoch_day(y, m, d) < days_of_years(
            (y - 1970 + 1) as nat,
        ),
        days_of_months(y, (m - 1) as nat) <= epoch_day(y, m, d) - days_of_years(
            (y - 1970) as nat,
        ) < days_of_months(y, m as nat),
{
    lemma_days_of_months_grow(y, m as nat, 12);
    lemma_days_of_months_grow(y, 0, (m - 1) as nat);
    lemma_days_of_months_year(y);
    assert(days_of_years((y - 1970 + 1) as nat) == days_of_years((y - 1970) as nat) + year_len(
        1970 + (y - 1970),
    ));
    assert(days_of_months(y, m as nat) == days_of_months(y, (m - 1) as nat) + month_len(y, m));
}

/// A day number names one date only.
pub proof fn law_epoch_day_unique(y1: int, m1: int, d1: int, y2: int, m2: int, d2: int)
    requires
        is_date(y1, m1, d1),
        is_date(y2, m2, d2),
        epoch_day(y1, m1, d1) == epoch_day(y2, m2, d2),
    ensures
        y1 == y2 && m1 == m2 && d1 == d2,
{
    lemma_epoch_day_bounds(y1, m1, d1);
    lemma_epoch_day_bounds(y2, m2, d2);
    if y1 < y2 {
        lemma_days_of_years_grow((y1 - 1970 + 1) as nat, (y2 - 1970) as nat);
    } else if y2 < y1 {
        lemma_days_of_years_grow((y2 - 1970 + 1) as nat, (y1 - 1970) as nat);
    }
    if m1 < m2 {
        lemma_days_of_months_grow(y1, m1 as nat, (m2 - 1) as nat);
    } else if m2 < m1 {
        lemma_days_of_months_grow(y1, m2 as nat, (m1 - 1) as nat);
    }
}

/// The Gregorian rules: a year has 366 days when divisible by 4, except
/// centuries not divisible by 400; its months add up to its length; and the
/// years from 1970 on add up to 365 days each plus one per leap year.
pub proof fn law_calendar(y: int, n: nat)
    ensures
        y % 4 != 0 ==> year_len(y) == 365,
        (y % 4 == 0 && y % 100 != 0) ==> year_len(y) == 366,
        (y % 100 == 0 && y % 400 != 0) ==> year_len(y) == 365,
        y % 400 == 0 ==> year_len(y) == 366,
        month_len(y, 2) == year_len(y) - 337,
        month_len(y, 1) == 31 && month_len(y, 3) == 31 && month_len(y, 4) == 30 && month_len(y, 5)
            == 31 && month_len(y, 6) == 30 && month_len(y, 7) == 31 && month_len(y, 8) == 31
            && month_len(y, 9) == 30 && month_len(y, 10) == 31 && month_len(y, 11) == 30
            && month_len(y, 12) == 31,
        days_of_months(y, 12) == year_len(y),
        clock_secs(None) == 0,
        days_of_years(n) == 365 * n + ((1969 + n) / 4 - 492) - ((1969 + n) / 100 - 19) + ((1969
            + n) / 400 - 4),
{
    assert(y % 400 == 0 ==> y % 100 == 0) by (nonlinear_arith);
    assert(y % 100 == 0 ==> y % 4 == 0) by (nonlinear_arith);
    lemma_days_of_months_year(y);
    lemma_days_of_years_closed(n);
}

/// The stamp of the instant `tod` seconds into the day `y-m-d` names that
/// day and that time of day.
pub proof fn law_stamp_names_date_and_time(y: int, m: int, d: int, tod: nat)
    requires
        is_date(y, m, d),
        tod < 86400,
    ensures
        utc_stamp((epoch_day(y, m, d) * 86400 + tod) as nat) == padded(y as nat, 4) + seq!['-']
            + padded(m as nat, 2) + seq!['-'] + padded(d as nat, 2) + seq!['T'] + padded(
            tod / 3600,
            2,
        ) + seq![':'] + padded((tod % 3600) / 60, 2) + seq![':'] + padded(tod % 60, 2) + seq![
            'Z',
        ],
{
    let e = epoch_day(y, m, d);
    lemma_epoch_day_bounds(y, m, d);
    lemma_days_of_years_grow(0, (y - 1970) as nat);
    lemma_days_of_months_grow(y, 0, (m - 1) as nat);
    assert(e >= 0);
    let secs = (e * 86400 + tod) as nat;
    assert(secs / 86400 == e && secs % 86400 == tod) by (nonlinear_arith)
        requires
            secs == e * 86400 + tod,
            e >= 0,
            0 <= tod < 86400,
    ;
    let w = date_of_day(e);
    assert(is_date(y, m, d) && epoch_day(y, m, d) == e);
    law_epoch_day_unique(y, m, d, w.0, w.1, w.2);
}

// ---------------------------------------------------------------------------
// Computation
// ---------------------------------------------------------------------------

fn days_before_year(n: u64) -> (r: u64)
    requires
        n <= 600_000_000_000,
    ensures
        r == days_of_years(n as nat),
{
    proof {
        lemma_days_of_years_closed(n as nat);
        lemma_days_of_years_grow(0, n as nat);
    }
    let y = 1970 + n;
    365 * y + (y - 1) / 4 - (y - 1) / 100 + (y - 1) / 400 - 719527
}

fn month_len_exec(y: u64, m: u64) -> (r: u64)
    requires
        1 <= m <= 12,
    ensures
        r == month_len(y as int, m as int),
{
    if m == 2 {
        if y % 4 == 0 && (y % 100 != 0 || y % 400 == 0) {
            29
        } else {
            28
        }
    } else if m == 4 || m == 6 || m == 9 || m == 11 {
        30
    } else {
        31
    }
}

/// The date `day` days after 1970-01-01.
fn civil_date(day: u64) -> (r: (u64, u64, u64))
    requires
        day <= 213_503_982_334_601,
    ensures
        is_date(r.0 as int, r.1 as int, r.2 as int),
        epoch_day(r.0 as int, r.1 as int, r.2 as int) == day,
        r.0 <= 600_000_001_970,
{
    let mut n: u64 = day * 400 / 146097;
    assert(n <= 600_000_000_000) by (nonlinear_arith)
        requires
            n == day * 400 / 146097,
            day <= 213_503_982_334_601,
    ;
    proof {
        lemma_days_of_years_grow(0, n as nat);
    }
    while days_before_year(n) > day
        invariant
            n <= 600_000_000_000,
        decreases n,
    {
        proof {
            assert(days_of_years(0) == 0);
        }
        n = n - 1;
    }
    proof {
        lemma_days_of_years_grow(0, n as nat);
    }
    while n < 600_000_000_000 && days_before_year(n + 1) <= day
        invariant
            n <= 600_000_000_000,
            days_of_years(n as nat) <= day,
        decreases day - days_of_years(n as nat),
    {
        n = n + 1;
    }
    proof {
        lemma_days_of_years_grow(0, (n + 1) as nat);
        if n == 600_000_000_000 {
            assert(days_of_years((n + 1) as nat) > day);
        }
    }
    let y = 1970 + n;
    let start = days_before_year(n);
    let rt = day - start;
    proof {
        assert(days_of_years((n + 1) as nat) == days_of_years(n as nat) + year_len(y as int));
        lemma_days_of_months_year(y as int);
    }
    let mut m: u64 = 1;
    let mut r: u64 = rt;
    while r >= month_len_exec(y, m)
        invariant
            1 <= m <= 12,
            days_of_months(y as int, (m - 1) as nat) + r == rt,
            rt < days_of_months(y as int, 12),
        decreases 12 - m,
    {
        proof {
            assert(days_of_months(y as int, m as nat) == days_of_months(y as int, (m - 1) as nat)
                + month_len(y as int, m as int));
            if m == 12 {
                assert(false);
            }
        }
        r = r - month_len_exec(y, m);
        m = m + 1;
    }
    (y, m, r + 1)
}

/// Appends `n` in decimal, padded with zeros to at least `w` digits.
fn append_padded(out: &mut String, n: u64, w: usize)
    ensures
        final(out)@ == old(out)@ + padded(n as nat, w as nat),
{
    let digits = decimal_string(n);
    let len = chars_of(digits.as_str()).len();
    let ghost zeros_before = out@;
    let mut k: usize = 0;
    if len < w {
        while k < w - len
            invariant
                len < w,
                k <= w - len,
                out@ == zeros_before + Seq::new(k as nat, |i: int| '0'),
            decreases w - len - k,
        {
            proof {
                reveal_strlit("0");
            }
            out.append("0");
            assert(out@ =~= zeros_before + Seq::new((k + 1) as nat, |i: int| '0'));
            k = k + 1;
        }
    }
    out.append(digits.as_str());
    assert(out@ =~= zeros_before + padded(n as nat, w as nat));
}

/// The RFC 3339 UTC timestamp of `secs` seconds after the Unix epoch.
pub fn utc_timestamp(secs: u64) -> (s: String)
    ensures
        s@ == utc_stamp(secs as nat),
{
    let day = secs / 86400;
    let (y, m, d) = civil_date(day);
    proof {
        let w = date_of_day(day as int);
        assert(is_date(y as int, m as int, d as int) && epoch_day(y as int, m as int, d as int)
            == day);
        assert(is_date(w.0, w.1, w.2) && epoch_day(w.0, w.1, w.2) == day);
        law_epoch_day_unique(y as int, m as int, d as int, w.0, w.1, w.2);
        reveal_strlit("-");
        reveal_strlit("T");
        reveal_strlit(":");
        reveal_strlit("Z");
    }
    let t = secs % 86400;
    let mut s = String::new();
    append_padded(&mut s, y, 4);
    s.append("-");
    append_padded(&mut s, m, 2);
    s.append("-");
    append_padded(&mut s, d, 2);
    s.append("T");
    append_padded(&mut s, t / 3600, 2);
    s.append(":");
    append_padded(&mut s, (t % 3600) / 60, 2);
    s.append(":");
    append_padded(&mut s, t % 60, 2);
    s.append("Z");
    assert(s@ =~= utc_stamp(secs as nat));
    s
}

/// The timestamp of a clock reading (seconds since the epoch, or `None`
/// for a clock before the epoch, which stamps the epoch itself).
pub fn clock_stamp(reading: Option<u64>) -> (s: String)
    ensures
        s@ == utc_stamp(clock_secs(reading)),
{
    let secs = match reading {
        Some(x) => x,
        None => 0,
    };
    utc_timestamp(secs)
}

} // verus!
