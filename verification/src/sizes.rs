//! Byte counts and ages in words.

use crate::calendar;
use crate::text;
use vstd::prelude::*;

verus! {

/// `a / d` to the nearest whole number, and to the even one of two that are equally near.
pub open spec fn half_even(a: nat, d: nat) -> nat {
    let q = a / d;
    let r = a % d;
    if 2 * r < d || (2 * r == d && q % 2 == 0) {
        q
    } else {
        q + 1
    }
}

/// The multiple of `unit` nearest to `n`, where 53 bits are enough to count units up to `n`. Where they are
/// not, the same with the unit doubled.
pub open spec fn nearest_double_from(n: nat, unit: nat) -> nat
    decreases n - unit,
{
    if unit == 0 || n < 0x20_0000_0000_0000 * unit {
        half_even(n, unit) * unit
    } else {
        nearest_double_from(n, 2 * unit)
    }
}

/// The double-precision number nearest to `n`.
pub open spec fn nearest_double(n: nat) -> nat {
    nearest_double_from(n, 1)
}

/// A byte count in GiB with two decimals, from one GiB on; in MiB with one, from one MiB on; and else in
/// whole KiB. Each is what the double-precision number nearest to the count comes to, with ties to even.
pub open spec fn bytes_text(n: nat) -> Seq<char> {
    if n >= 0x4000_0000 {
        let hundredths = half_even(nearest_double(n) * 100, 0x4000_0000);
        text::decimal(hundredths / 100) + "."@ + text::zero_padded(hundredths % 100, 2) + " GiB"@
    } else if n >= 0x10_0000 {
        let tenths = half_even(nearest_double(n) * 10, 0x10_0000);
        text::decimal(tenths / 10) + "."@ + text::decimal(tenths % 10) + " MiB"@
    } else {
        text::decimal(half_even(nearest_double(n), 0x400)) + " KiB"@
    }
}

fn round_half_even(a: u128, d: u128) -> (q: u128)
    requires
        0 < d <= 0x8000_0000_0000_0000,
        a < 0x1_0000_0000_0000_0000_0000_0000_0000,
    ensures
        q == half_even(a as nat, d as nat),
        q <= a / d + 1,
{
    let q: u128 = a / d;
    let r: u128 = a % d;
    assert(a / d <= a) by (nonlinear_arith)
        requires
            d > 0,
    ;
    if 2 * r < d || (2 * r == d && q % 2 == 0) {
        q
    } else {
        q + 1
    }
}

fn to_nearest_double(n: u64) -> (f: u128)
    ensures
        f == nearest_double(n as nat),
        f <= 0x2_0000_0000_0000_0000,
{
    let mut unit: u128 = 1;
    while n as u128 >= 0x20_0000_0000_0000u128 * unit
        invariant
            1 <= unit <= 0x1000,
            unit == 1 || n >= 0x10_0000_0000_0000 * unit,
            nearest_double(n as nat) == nearest_double_from(n as nat, unit as nat),
        decreases 0x2000 - unit,
    {
        unit = 2 * unit;
    }
    let q: u128 = round_half_even(n as u128, unit);
    proof {
        lemma_rounding_adds_little(n as nat, unit as nat);
    }
    q * unit
}

/// Rounding adds at most one unit.
proof fn lemma_rounding_adds_little(n: nat, unit: nat)
    requires
        unit >= 1,
    ensures
        half_even(n, unit) * unit <= n + unit,
{
    let q = n / unit;
    assert(q * unit <= n) by (nonlinear_arith)
        requires
            q == n / unit,
            unit >= 1,
    ;
    assert((q + 1) * unit == q * unit + unit) by (nonlinear_arith);
}

/// A byte count in words.
pub fn human_bytes(n: u64) -> (out: String)
    ensures
        out@ == bytes_text(n as nat),
{
    let f: u128 = to_nearest_double(n);
    if n >= 0x4000_0000 {
        let hundredths: u128 = round_half_even(f * 100, 0x4000_0000);
        let mut out = String::new();
        text::push_decimal(&mut out, (hundredths / 100) as u64);
        assert(out@ =~= text::decimal((hundredths / 100) as nat));
        out.append(".");
        text::push_padded(&mut out, (hundredths % 100) as u64, 2);
        out.append(" GiB");
        out
    } else if n >= 0x10_0000 {
        let tenths: u128 = round_half_even(f * 10, 0x10_0000);
        let mut out = String::new();
        text::push_decimal(&mut out, (tenths / 10) as u64);
        assert(out@ =~= text::decimal((tenths / 10) as nat));
        out.append(".");
        text::push_decimal(&mut out, (tenths % 10) as u64);
        out.append(" MiB");
        out
    } else {
        let whole: u128 = round_half_even(f, 0x400);
        let mut out = String::new();
        text::push_decimal(&mut out, whole as u64);
        assert(out@ =~= text::decimal(whole as nat));
        out.append(" KiB");
        out
    }
}

/// A count below 2^53 is its own nearest double-precision number.
pub proof fn law_small_counts_are_exact(n: nat)
    requires
        n < 0x20_0000_0000_0000,
    ensures
        nearest_double(n) == n,
{
    assert(n % 1 == 0 && n / 1 == n);
}

/// How long ago `created` was at `now`, in words: a dash where `created` is 0, for not known, and else
/// whole seconds below a minute, minutes below an hour, hours below a day, days below thirty, and months
/// of thirty days. What is still to come is no time ago.
pub open spec fn age_text(now: nat, created: nat) -> Seq<char> {
    let dt: nat = if now > created { (now - created) as nat } else { 0 };
    if created == 0 {
        "—"@
    } else if dt < 60 {
        text::decimal(dt) + "s ago"@
    } else if dt < 3600 {
        text::decimal(dt / 60) + "m ago"@
    } else if dt < 86400 {
        text::decimal(dt / 3600) + "h ago"@
    } else if dt < 2_592_000 {
        text::decimal(dt / 86400) + "d ago"@
    } else {
        text::decimal(dt / 86400 / 30) + "mo ago"@
    }
}

/// A count and its unit.
fn counted(n: u64, unit: &str) -> (out: String)
    ensures
        out@ == text::decimal(n as nat) + unit@,
{
    let mut out = String::new();
    text::push_decimal(&mut out, n);
    assert(out@ =~= text::decimal(n as nat));
    out.append(unit);
    out
}

/// How long ago `created_at_unix` was at `now`, in words.
pub fn human_age_at(now: u64, created_at_unix: u64) -> (out: String)
    ensures
        out@ == age_text(now as nat, created_at_unix as nat),
{
    if created_at_unix == 0 {
        return "—".to_owned();
    }
    let dt: u64 = if now > created_at_unix {
        now - created_at_unix
    } else {
        0
    };
    if dt < 60 {
        counted(dt, "s ago")
    } else if dt < 3600 {
        counted(dt / 60, "m ago")
    } else if dt < 86400 {
        counted(dt / 3600, "h ago")
    } else if dt < 2_592_000 {
        counted(dt / 86400, "d ago")
    } else {
        counted(dt / 86400 / 30, "mo ago")
    }
}

/// How long ago `created_at_unix` was, in words, by the system clock.
pub fn human_age(created_at_unix: u64) -> (out: String)
    ensures
        exists|t: std::time::SystemTime|
            out@ == age_text(#[trigger] calendar::unix_secs_of(t) as nat, created_at_unix as nat),
        created_at_unix == 0 ==> out@ == "—"@,
{
    let now: u64 = calendar::unix_secs_now();
    human_age_at(now, created_at_unix)
}

/// Whether `h` units of `d` are as near to `a` as whole units come, and even where two are equally near.
pub open spec fn is_nearest(h: int, d: int, a: int) -> bool {
    &&& -d <= 2 * (h * d - a) <= d
    &&& 2 * (h * d - a) == d || 2 * (h * d - a) == -d ==> h % 2 == 0
}

proof fn lemma_half_even(a: nat, d: nat)
    requires
        d > 0,
    ensures
        is_nearest(half_even(a, d) as int, d as int, a as int),
{
    let q = a / d;
    let r = a % d;
    assert(a == q * d + r && 0 <= r < d) by (nonlinear_arith)
        requires
            q == a / d,
            r == a % d,
            d > 0,
    ;
    assert((q + 1) * d == q * d + d) by (nonlinear_arith);
}

/// Whether `u` is a power of two.
pub open spec fn is_power_of_two(u: nat) -> bool
    decreases u,
{
    u == 1 || (u > 1 && u % 2 == 0 && is_power_of_two(u / 2))
}

/// Whether `f` is the double-precision number nearest to `n`: a multiple of the least power of two of which 53
/// bits count up to `n`, as near as such multiples come, and an even one where two are equally near.
pub open spec fn is_nearest_double(f: nat, n: nat) -> bool {
    exists|unit: nat|
        {
            &&& #[trigger] is_power_of_two(unit)
            &&& n < 0x20_0000_0000_0000 * unit
            &&& unit == 1 || n >= 0x10_0000_0000_0000 * unit
            &&& exists|h: nat| f == #[trigger] (h * unit) && is_nearest(h as int, unit as int, n as int)
        }
}

proof fn lemma_nearest_double_from(n: nat, unit: nat)
    requires
        is_power_of_two(unit),
        unit == 1 || n >= 0x10_0000_0000_0000 * unit,
    ensures
        is_nearest_double(nearest_double_from(n, unit), n),
    decreases n - unit,
{
    if n < 0x20_0000_0000_0000 * unit {
        lemma_half_even(n, unit);
        let h = half_even(n, unit);
        assert(nearest_double_from(n, unit) == h * unit);
    } else {
        assert((2 * unit) / 2 == unit);
        assert(is_power_of_two(2 * unit));
        lemma_nearest_double_from(n, 2 * unit);
    }
}

/// Each count has its nearest double-precision number.
pub proof fn law_nearest_double_is_nearest(n: nat)
    ensures
        is_nearest_double(nearest_double(n), n),
{
    assert(is_power_of_two(1));
    lemma_nearest_double_from(n, 1);
}

/// Whether a text is a number with `places` decimals and a unit, and the number without its point is `h`.
pub open spec fn is_decimal_text(text: Seq<char>, h: nat, places: nat, unit: Seq<char>) -> bool {
    exists|whole: Seq<char>, fraction: Seq<char>|
        {
            &&& text == #[trigger] (whole + "."@ + fraction + unit)
            &&& text::is_number(whole) && (whole.len() > 1 ==> whole[0] != '0')
            &&& text::is_number(fraction) && fraction.len() == places
            &&& h == text::value_of(whole) * (if places == 1 { 10nat } else { 100 }) + text::value_of(fraction)
        }
}

/// A byte count is told in GiB with two decimals from one GiB on, in MiB with one from one MiB on, and else
/// in whole KiB. What is told is as near as that comes to the double-precision number nearest to the count,
/// which below 2^53 is the count itself, and even where two are equally near.
pub proof fn law_bytes_are_told_to_the_nearest(n: u64, out: String)
    requires
        call_ensures(human_bytes, (n,), out),
    ensures
        exists|f: nat|
            {
                &&& #[trigger] is_nearest_double(f, n as nat)
                &&& n < 0x20_0000_0000_0000 ==> f == n
                &&& n >= 1024 * 1024 * 1024 ==> exists|h: nat| #[trigger]
                    is_decimal_text(out@, h, 2, " GiB"@) && is_nearest(h as int, 0x4000_0000, 100 * (f as int))
                &&& 1024 * 1024 <= n < 1024 * 1024 * 1024 ==> exists|h: nat| #[trigger]
                    is_decimal_text(out@, h, 1, " MiB"@) && is_nearest(h as int, 0x10_0000, 10 * (f as int))
                &&& n < 1024 * 1024 ==> exists|digits: Seq<char>|
                    {
                        &&& out@ == #[trigger] (digits + " KiB"@)
                        &&& text::is_number(digits) && (digits.len() > 1 ==> digits[0] != '0')
                        &&& is_nearest(text::value_of(digits) as int, 1024, f as int)
                    }
            },
{
    let f = nearest_double(n as nat);
    law_nearest_double_is_nearest(n as nat);
    if n < 0x20_0000_0000_0000 {
        law_small_counts_are_exact(n as nat);
    }
    if n >= 1024 * 1024 * 1024 {
        let h = half_even(f * 100, 0x4000_0000);
        lemma_half_even(f * 100, 0x4000_0000);
        text::law_decimal_reads_back(h / 100);
        text::law_padded_reads_back(h % 100, 2);
        text::law_two_digits(h % 100);
        let whole = text::decimal(h / 100);
        let fraction = text::zero_padded(h % 100, 2);
        assert(out@ == whole + "."@ + fraction + " GiB"@);
        assert(is_decimal_text(out@, h, 2, " GiB"@));
    } else if n >= 1024 * 1024 {
        let h = half_even(f * 10, 0x10_0000);
        lemma_half_even(f * 10, 0x10_0000);
        text::law_decimal_reads_back(h / 10);
        text::law_decimal_reads_back(h % 10);
        let whole = text::decimal(h / 10);
        let fraction = text::decimal(h % 10);
        assert(out@ == whole + "."@ + fraction + " MiB"@);
        assert(is_decimal_text(out@, h, 1, " MiB"@));
    } else {
        let h = half_even(f, 0x400);
        lemma_half_even(f, 0x400);
        text::law_decimal_reads_back(h);
        let digits = text::decimal(h);
        assert(out@ == digits + " KiB"@);
    }
}

/// Whether a text is how many whole units of `secs` seconds have gone by in `dt` seconds, and the unit.
pub open spec fn is_count_text(text: Seq<char>, dt: int, secs: int, unit: Seq<char>) -> bool {
    exists|digits: Seq<char>|
        {
            &&& text == #[trigger] (digits + unit)
            &&& text::is_number(digits) && (digits.len() > 1 ==> digits[0] != '0')
            &&& text::value_of(digits) * secs <= dt < (text::value_of(digits) + 1) * secs
        }
}

/// Whether a text tells how long ago `created` was at `now`: a dash where `created` is 0, and else the whole
/// seconds of less than a minute, minutes of less than an hour, hours of less than a day, days of less than
/// thirty, and months of thirty days.
pub open spec fn tells_age(text: Seq<char>, now: int, created: int) -> bool {
    let dt = if now > created { now - created } else { 0 };
    if created == 0 {
        text == "—"@
    } else if dt < 60 {
        is_count_text(text, dt, 1, "s ago"@)
    } else if dt < 60 * 60 {
        is_count_text(text, dt, 60, "m ago"@)
    } else if dt < 24 * 60 * 60 {
        is_count_text(text, dt, 3600, "h ago"@)
    } else if dt < 30 * 24 * 60 * 60 {
        is_count_text(text, dt, 24 * 3600int, "d ago"@)
    } else {
        is_count_text(text, dt, 30 * 24 * 3600int, "mo ago"@)
    }
}

proof fn lemma_tells_age(now: nat, created: nat)
    ensures
        tells_age(age_text(now, created), now as int, created as int),
{
    let dt: nat = if now > created { (now - created) as nat } else { 0 };
    if created > 0 {
        let count = if dt < 60 {
            dt
        } else if dt < 3600 {
            dt / 60
        } else if dt < 86400 {
            dt / 3600
        } else if dt < 2_592_000 {
            dt / 86400
        } else {
            dt / 86400 / 30
        };
        text::law_decimal_reads_back(count);
        let digits = text::decimal(count);
        let unit = if dt < 60 {
            "s ago"@
        } else if dt < 3600 {
            "m ago"@
        } else if dt < 86400 {
            "h ago"@
        } else if dt < 2_592_000 {
            "d ago"@
        } else {
            "mo ago"@
        };
        assert(age_text(now, created) == digits + unit);
    }
}

/// An age tells how long ago a moment was, at the moment given or at one that some reading of the clock
/// shows.
pub proof fn law_age_is_told(now: u64, created: u64, out: String, by_clock: String)
    requires
        call_ensures(human_age_at, (now, created), out),
        call_ensures(human_age, (created,), by_clock),
    ensures
        tells_age(out@, now as int, created as int),
        exists|t: std::time::SystemTime|
            match #[trigger] calendar::after_epoch(t) {
                Some(d) => tells_age(by_clock@, calendar::whole_secs(d) as int, created as int),
                None => tells_age(by_clock@, 0, created as int),
            },
{
    lemma_tells_age(now as nat, created as nat);
    let t = choose|t: std::time::SystemTime|
        by_clock@ == age_text(#[trigger] calendar::unix_secs_of(t) as nat, created as nat);
    lemma_tells_age(calendar::unix_secs_of(t) as nat, created as nat);
    assert(match calendar::after_epoch(t) {
        Some(d) => tells_age(by_clock@, calendar::whole_secs(d) as int, created as int),
        None => tells_age(by_clock@, 0, created as int),
    });
}

} // verus!
