//! ISO week keys and week labels.
//!
//! Each stored timestamp is grouped by the ISO 8601 year-week of its calendar
//! date. The week computation itself is delegated to the `chrono` crate; its
//! result is named by [`iso_week_of`] and everything downstream is verified
//! against that name. The label `YYYY-WW` is formatted by verified code so
//! that labels of four-digit years sort chronologically.

use vstd::prelude::*;

verus! {

/// Lowest timestamp accepted: 0001-01-01 00:00:00 UTC as seconds since the
/// Unix epoch.
pub const TS_MIN: i64 = -62135596800;

/// Highest timestamp accepted: 9999-12-31 23:59:59 UTC as seconds since the
/// Unix epoch.
pub const TS_MAX: i64 = 253402300799;

/// A timestamp this library interprets as a calendar date: within the years
/// 1 to 9999.
pub open spec fn ts_valid(ts: i64) -> bool {
    TS_MIN <= ts <= TS_MAX
}

/// The ISO year and ISO week number of the calendar date of a Unix
/// timestamp, in UTC. The pair is a pure function of the timestamp; it is
/// computed by `chrono` and left uninterpreted here.
pub uninterp spec fn iso_week_of(ts: i64) -> (int, int);

/// Relies on `chrono::DateTime::<Utc>::from_timestamp`, which returns `Some`
/// for every in-range number of seconds, and on `IsoWeek::year` and
/// `IsoWeek::week`; `week` is documented to range from 1 to 53. The result
/// depends on the timestamp alone.
#[verifier::external_body]
pub fn iso_week_parts(ts: i64) -> (r: (i32, u32))
    requires
        ts_valid(ts),
    ensures
        r.0 as int == iso_week_of(ts).0,
        r.1 as int == iso_week_of(ts).1,
        1 <= r.1 <= 53,
{
    let dt = chrono::DateTime::from_timestamp(ts, 0).unwrap();
    let week = chrono::Datelike::iso_week(&dt);
    (week.year(), week.week())
}

/// Strict chronological order on ISO week keys.
pub open spec fn key_lt(a: (int, int), b: (int, int)) -> bool {
    a.0 < b.0 || (a.0 == b.0 && a.1 < b.1)
}

/// The decimal digit character for `d` (0 to 9).
pub open spec fn digit_char(d: nat) -> char {
    if d == 0 {
        '0'
    } else if d == 1 {
        '1'
    } else if d == 2 {
        '2'
    } else if d == 3 {
        '3'
    } else if d == 4 {
        '4'
    } else if d == 5 {
        '5'
    } else if d == 6 {
        '6'
    } else if d == 7 {
        '7'
    } else if d == 8 {
        '8'
    } else {
        '9'
    }
}

/// The decimal digits of `n`, most significant first, no leading zeros.
pub open spec fn dec_digits(n: nat) -> Seq<char>
    decreases n,
{
    if n < 10 {
        seq![digit_char(n)]
    } else {
        dec_digits(n / 10).push(digit_char(n % 10))
    }
}

/// The decimal digits of `n`, left-padded with zeros to at least `w`
/// characters.
pub open spec fn padded_digits(n: nat, w: nat) -> Seq<char>
    decreases w,
{
    if dec_digits(n).len() >= w {
        dec_digits(n)
    } else {
        seq!['0'] + padded_digits(n, (w - 1) as nat)
    }
}

/// A possibly negative number, zero-padded to width `w`, with a leading
/// minus sign when negative.
pub open spec fn int_digits(v: int, w: nat) -> Seq<char> {
    if v >= 0 {
        padded_digits(v as nat, w)
    } else {
        seq!['-'] + padded_digits((-v) as nat, w)
    }
}

/// The label of an ISO week key: the year padded to four digits, a dash,
/// the week number padded to two digits.
pub open spec fn week_label_of(k: (int, int)) -> Seq<char> {
    int_digits(k.0, 4) + seq!['-'] + int_digits(k.1, 2)
}

/// The one-character string for a decimal digit.
fn digit_str(d: u64) -> (r: &'static str)
    requires
        d < 10,
    ensures
        r@ == seq![digit_char(d as nat)],
{
    proof {
        reveal_strlit("0");
        reveal_strlit("1");
        reveal_strlit("2");
        reveal_strlit("3");
        reveal_strlit("4");
        reveal_strlit("5");
        reveal_strlit("6");
        reveal_strlit("7");
        reveal_strlit("8");
        reveal_strlit("9");
    }
    let r = if d == 0 {
        "0"
    } else if d == 1 {
        "1"
    } else if d == 2 {
        "2"
    } else if d == 3 {
        "3"
    } else if d == 4 {
        "4"
    } else if d == 5 {
        "5"
    } else if d == 6 {
        "6"
    } else if d == 7 {
        "7"
    } else if d == 8 {
        "8"
    } else {
        "9"
    };
    assert(r@ =~= seq![digit_char(d as nat)]);
    r
}

/// The number of decimal digits of `n`, up to the four that matter for
/// padding.
proof fn lemma_digit_len(n: nat)
    ensures
        n < 10 ==> dec_digits(n).len() == 1,
        10 <= n < 100 ==> dec_digits(n).len() == 2,
        100 <= n < 1000 ==> dec_digits(n).len() == 3,
        n >= 1000 ==> dec_digits(n).len() >= 4,
    decreases n,
{
    if n >= 10 {
        lemma_digit_len(n / 10);
    }
}

/// Appends the decimal digits of `n` to `out`.
fn push_digits(out: &mut String, n: u64)
    ensures
        old(out)@ + dec_digits(n as nat) == final(out)@,
    decreases n,
{
    if n < 10 {
        out.append(digit_str(n));
        assert(out@ =~= old(out)@ + dec_digits(n as nat));
    } else {
        push_digits(out, n / 10);
        out.append(digit_str(n % 10));
        assert(out@ =~= old(out)@ + dec_digits(n as nat));
    }
}

/// Appends the decimal digits of `n`, zero-padded to width `w`, to `out`.
fn push_padded(out: &mut String, n: u64, w: usize)
    requires
        w <= 4,
    ensures
        old(out)@ + padded_digits(n as nat, w as nat) == final(out)@,
    decreases w,
{
    let c: usize = if n < 10 {
        1
    } else if n < 100 {
        2
    } else if n < 1000 {
        3
    } else {
        4
    };
    proof {
        lemma_digit_len(n as nat);
    }
    if c >= w {
        push_digits(out, n);
        assert(out@ =~= old(out)@ + padded_digits(n as nat, w as nat));
    } else {
        proof {
            reveal_strlit("0");
        }
        out.append("0");
        push_padded(out, n, w - 1);
        assert(out@ =~= old(out)@ + padded_digits(n as nat, w as nat));
    }
}

/// The printable label of an ISO week key, such as a year-week pair taken
/// from [`iso_week_parts`].
pub fn week_label(y: i32, w: u32) -> (r: String)
    ensures
        r@ == week_label_of((y as int, w as int)),
{
    proof {
        reveal_strlit("-");
    }
    let mut out = String::new();
    if y < 0 {
        out.append("-");
        let mag = -(y as i64);
        push_padded(&mut out, mag as u64, 4);
        assert(out@ =~= int_digits(y as int, 4));
    } else {
        push_padded(&mut out, y as u64, 4);
        assert(out@ =~= int_digits(y as int, 4));
    }
    out.append("-");
    push_padded(&mut out, w as u64, 2);
    assert(out@ =~= week_label_of((y as int, w as int)));
    out
}

/// `a` comes strictly before `b` in chronological week order.
pub fn key_before(ay: i32, aw: u32, by: i32, bw: u32) -> (r: bool)
    ensures
        r == key_lt((ay as int, aw as int), (by as int, bw as int)),
{
    ay < by || (ay == by && aw < bw)
}

} // verus!
