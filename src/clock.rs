//! The generation timestamp of a resolved state: UTC calendar date and time
//! of a count of seconds since the Unix epoch.
use vstd::prelude::*;
use vstd::string::*;
use crate::text::{append_dec, dec};

verus! {

/// Days from 0000-03-01 to 1970-01-01 in the proleptic Gregorian calendar.
pub const EPOCH_SHIFT: u64 = 719_468;

/// Days in a 400-year era.
pub const DAYS_PER_ERA: u64 = 146_097;

/// Year, month and day of the `days`-th day after 1970-01-01.
pub open spec fn civil_from_days(days: nat) -> (nat, nat, nat) {
    let z = days + 719468;
    let era = z / 146097;
    let doe = z % 146097;
    let yoe = ((doe - doe / 1460 + doe / 36524 - doe / 146096) as nat) / 365;
    let doy = (doe - (365 * yoe + yoe / 4 - yoe / 100)) as nat;
    let mp = (5 * doy + 2) / 153;
    let d = (doy - (153 * mp + 2) / 5 + 1) as nat;
    let m = if mp < 10 {
        mp + 3
    } else {
        (mp - 9) as nat
    };
    let y = yoe + era * 400 + if m <= 2 {
        1nat
    } else {
        0nat
    };
    (y, m, d)
}

/// Two decimal digits of `n`, below one hundred.
pub open spec fn dec2(n: nat) -> Seq<char> {
    if n < 10 {
        seq!['0'] + dec(n)
    } else {
        dec(n)
    }
}

/// `YYYY-MM-DDTHH:MM:SSZ` for `secs` seconds after the Unix epoch.
pub open spec fn timestamp_text(secs: nat) -> Seq<char> {
    let (y, m, d) = civil_from_days(secs / 86400);
    let t = secs % 86400;
    dec(y) + seq!['-'] + dec2(m) + seq!['-'] + dec2(d) + seq!['T'] + dec2(t / 3600) + seq![':']
        + dec2((t / 60) % 60) + seq![':'] + dec2(t % 60) + seq!['Z']
}

fn append_dec2(s: &mut String, n: u64)
    requires
        n < 100,
    ensures
        final(s)@ == old(s)@ + dec2(n as nat),
{
    let ghost s0 = s@;
    if n < 10 {
        append_dec(s, 0);
        assert(dec(0) == seq!['0']);
    }
    append_dec(s, n);
    assert(s@ =~= s0 + dec2(n as nat));
}

/// The UTC date and time `secs` seconds after the Unix epoch, as
/// `YYYY-MM-DDTHH:MM:SSZ`.
pub fn format_timestamp(secs: u64) -> (r: String)
    ensures
        r@ == timestamp_text(secs as nat),
{
    let days = secs / 86400;
    let z = days + EPOCH_SHIFT;
    let era = z / DAYS_PER_ERA;
    let doe = z % DAYS_PER_ERA;
    let yoe = (doe - doe / 1460 + doe / 36524 - doe / 146096) / 365;
    assert(yoe < 400);
    let doy = doe - (365 * yoe + yoe / 4 - yoe / 100);
    assert(doy < 366) by (nonlinear_arith)
        requires
            doe < 146097,
            yoe == (doe - doe / 1460 + doe / 36524 - doe / 146096) / 365,
            doy == doe - (365 * yoe + yoe / 4 - yoe / 100),
    ;
    let mp = (5 * doy + 2) / 153;
    let d = doy - (153 * mp + 2) / 5 + 1;
    let m = if mp < 10 {
        mp + 3
    } else {
        mp - 9
    };
    let y = yoe + era * 400 + if m <= 2 {
        1
    } else {
        0
    };
    let t = secs % 86400;
    proof {
        reveal_strlit("-");
        reveal_strlit("T");
        reveal_strlit(":");
        reveal_strlit("Z");
    }
    let mut s = String::new();
    append_dec(&mut s, y);
    s.append("-");
    append_dec2(&mut s, m);
    s.append("-");
    append_dec2(&mut s, d);
    s.append("T");
    append_dec2(&mut s, t / 3600);
    s.append(":");
    append_dec2(&mut s, (t / 60) % 60);
    s.append(":");
    append_dec2(&mut s, t % 60);
    s.append("Z");
    assert(s@ =~= timestamp_text(secs as nat));
    s
}

/// Relies on `std::time::SystemTime::now`: the current time as whole seconds
/// since the Unix epoch, or `None` for a clock set before the epoch.
#[verifier::external_body]
fn unix_seconds_now() -> (r: Option<u64>) {
    std::time::SystemTime::now().duration_since(std::time::UNIX_EPOCH).ok().map(|d| d.as_secs())
}

/// The current UTC date and time as `YYYY-MM-DDTHH:MM:SSZ`; a clock set
/// before the epoch reads as the epoch.
pub fn simple_timestamp() -> (r: String)
    ensures
        exists|secs: nat| r@ == timestamp_text(secs),
{
    let secs = match unix_seconds_now() {
        Some(s) => s,
        None => 0,
    };
    format_timestamp(secs)
}

} // verus!
