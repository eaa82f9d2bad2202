//! Document metadata: format version, generator and creation and
//! modification times as ISO 8601 UTC timestamps.
use vstd::prelude::*;
use std::time::{Duration, SystemTime, SystemTimeError};
use vstd::string::StringExecFns;
use crate::text::{decimal, decimal_string};

verus! {

/// Metadata stored with a document.
#[derive(Debug, Clone)]
pub struct Meta {
    pub format_version: String,
    pub generator: String,
    pub created_at: String,
    pub modified_at: String,
}

/// The decimal rendering of `n`, left-padded with zeros to `width` digits.
pub open spec fn padded(n: nat, width: nat) -> Seq<char> {
    let d = decimal(n);
    if d.len() < width {
        Seq::new((width - d.len()) as nat, |i: int| '0') + d
    } else {
        d
    }
}

/// The timestamp "YYYY-MM-DDTHH:MM:SSZ" for `secs` seconds after the Unix
/// epoch, on a calendar of 365-day years and 30-day months (the last month
/// takes the remaining days).
pub open spec fn iso8601(secs: nat) -> Seq<char> {
    let days = secs / 86400;
    let in_year = days % 365;
    let month = if in_year / 30 < 11 {
        in_year / 30 + 1
    } else {
        12
    };
    padded(1970 + days / 365, 4) + "-"@ + padded(month, 2) + "-"@ + padded(in_year % 30 + 1, 2)
        + "T"@ + padded((secs / 3600) % 24, 2) + ":"@ + padded((secs / 60) % 60, 2) + ":"@
        + padded(secs % 60, 2) + "Z"@
}

/// Decimal rendering of `n` left-padded with zeros to `width` digits.
fn pad_decimal(n: u64, width: usize) -> (r: String)
    ensures
        r@ == padded(n as nat, width as nat),
{
    let digits = decimal_string(n);
    let len = digits.as_str().unicode_len();
    if len >= width {
        return digits;
    }
    let mut r = String::new();
    let mut i: usize = 0;
    while i < width - len
        invariant
            0 <= i <= width - len,
            r@ == Seq::new(i as nat, |k: int| '0'),
        decreases width - len - i,
    {
        r.append("0");
        proof {
            reveal_strlit("0");
        }
        assert(r@ =~= Seq::new(i as nat + 1, |k: int| '0'));
        i += 1;
    }
    r.append(digits.as_str());
    r
}

/// The timestamp for `secs` seconds after the Unix epoch.
pub fn iso8601_from_secs(secs: u64) -> (r: String)
    ensures
        r@ == iso8601(secs as nat),
{
    let days = secs / 86400;
    let in_year = days % 365;
    let month = if in_year / 30 < 11 {
        in_year / 30 + 1
    } else {
        12
    };
    let mut r = pad_decimal(1970 + days / 365, 4);
    r.append("-");
    let m = pad_decimal(month, 2);
    r.append(m.as_str());
    r.append("-");
    let d = pad_decimal(in_year % 30 + 1, 2);
    r.append(d.as_str());
    r.append("T");
    let h = pad_decimal((secs / 3600) % 24, 2);
    r.append(h.as_str());
    r.append(":");
    let mi = pad_decimal((secs / 60) % 60, 2);
    r.append(mi.as_str());
    r.append(":");
    let s = pad_decimal(secs % 60, 2);
    r.append(s.as_str());
    r.append("Z");
    r
}

/// The system clock's time.
#[verifier::external_type_specification]
#[verifier::external_body]
pub struct ExSystemTime(SystemTime);

/// The error of a clock reading before a given time.
#[verifier::external_type_specification]
#[verifier::external_body]
pub struct ExSystemTimeError(SystemTimeError);

/// Wraps `SystemTime::now`: the current time of the system clock. It depends
/// on the clock, so nothing is stated of it.
#[verifier::external_body]
fn system_now() -> (r: SystemTime) {
    SystemTime::now()
}

/// Wraps `SystemTime::duration_since` with `UNIX_EPOCH`: the time elapsed
/// since the Unix epoch, or an error when the time is earlier than the
/// epoch. Times are opaque here, so nothing is stated of the result.
#[verifier::external_body]
fn since_unix_epoch(t: &SystemTime) -> (r: Result<Duration, SystemTimeError>) {
    t.duration_since(SystemTime::UNIX_EPOCH)
}

/// Wraps `Duration::as_secs`: the whole seconds of a duration. Durations are
/// opaque here, so nothing is stated of the result.
#[verifier::external_body]
fn whole_seconds(d: &Duration) -> (r: u64) {
    d.as_secs()
}

/// Seconds since the Unix epoch by the system clock; zero when the clock is
/// set before the epoch.
fn clock_seconds() -> (r: u64) {
    match since_unix_epoch(&system_now()) {
        Ok(d) => whole_seconds(&d),
        Err(_) => 0,
    }
}

/// The current time as a timestamp.
fn now_iso8601() -> (r: String)
    ensures
        exists|secs: u64| r@ == #[trigger] iso8601(secs as nat),
{
    let secs = clock_seconds();
    iso8601_from_secs(secs)
}

impl Meta {
    /// Metadata of a new document made by `generator`: format version
    /// "1.0.0", created and modified now.
    pub fn new(generator: &str) -> (r: Self)
        ensures
            r.format_version@ == "1.0.0"@,
            r.generator@ == generator@,
            r.created_at@ == r.modified_at@,
            exists|secs: u64| r.created_at@ == #[trigger] iso8601(secs as nat),
    {
        let now = now_iso8601();
        Meta {
            format_version: String::from_str("1.0.0"),
            generator: String::from_str(generator),
            created_at: now.clone(),
            modified_at: now,
        }
    }

    /// Metadata for a document stored before metadata existed: format
    /// version "1.0.0", generator "ode-format (legacy)", created and
    /// modified now.
    pub fn legacy() -> (r: Self)
        ensures
            r.format_version@ == "1.0.0"@,
            r.generator@ == "ode-format (legacy)"@,
            r.created_at@ == r.modified_at@,
            exists|secs: u64| r.created_at@ == #[trigger] iso8601(secs as nat),
    {
        let now = now_iso8601();
        Meta {
            format_version: String::from_str("1.0.0"),
            generator: String::from_str("ode-format (legacy)"),
            created_at: now.clone(),
            modified_at: now,
        }
    }

    /// Record a modification now.
    pub fn touch(&mut self)
        ensures
            final(self).format_version@ == old(self).format_version@,
            final(self).generator@ == old(self).generator@,
            final(self).created_at@ == old(self).created_at@,
            exists|secs: u64| final(self).modified_at@ == #[trigger] iso8601(secs as nat),
    {
        self.modified_at = now_iso8601();
    }
}

} // verus!
