//! Starting up: the settings, and whether the database on disk can be served as it is.

use crate::mesh_sync;
use crate::text;
use crate::version;
use vstd::prelude::*;

verus! {

pub const DEFAULT_DB_PATH: &'static str = "~/.argus/polymarket_events.db";

pub const DEFAULT_BIND_ADDRESS: &'static str = "/tmp/argus_polymarket_db.sock";

pub const DEFAULT_REFRESH_INTERVAL_SECS: u64 = 300;

/// A setting, or its default.
pub fn env_or(value: Option<String>, default: &str) -> (r: String)
    ensures
        r@ == match value {
            Some(v) => v@,
            None => default@,
        },
{
    match value {
        Some(v) => v,
        None => default.to_owned(),
    }
}

/// The refresh interval: a number of seconds, or the default where it is none.
pub fn refresh_interval_secs(value: Option<&str>) -> (r: u64)
    ensures
        r == match value {
            Some(v) => match text::u64_of(v@) {
                Some(n) => n,
                None => DEFAULT_REFRESH_INTERVAL_SECS,
            },
            None => DEFAULT_REFRESH_INTERVAL_SECS,
        },
{
    match value {
        Some(v) => match text::parse_u64(v) {
            Some(n) => n,
            None => DEFAULT_REFRESH_INTERVAL_SECS,
        },
        None => DEFAULT_REFRESH_INTERVAL_SECS,
    }
}

/// Whether the version is asked for.
pub fn wants_version(args: &Vec<String>) -> (yes: bool)
    ensures
        yes == text::texts(args@).contains("--version"@),
{
    let mut i: usize = 0;
    while i < args.len()
        invariant
            i <= args@.len(),
            forall|k: int| 0 <= k < i ==> #[trigger] text::texts(args@)[k] != "--version"@,
        decreases args@.len() - i,
    {
        assert(text::texts(args@)[i as int] == args@[i as int]@);
        if text::same(args[i].as_str(), "--version") {
            return true;
        }
        i = i + 1;
    }
    false
}

/// What is printed where the version is asked for.
pub fn version_line() -> (r: String)
    ensures
        r@ == "Argus Polymarket Database v"@ + version::version_text(),
{
    "Argus Polymarket Database v".to_owned().concat(version::version_string().as_str())
}

// ---------------------------------------------------------------------------
// Times
// ---------------------------------------------------------------------------

/// A time of day.
pub open spec fn hms(secs: nat) -> Seq<char> {
    let rest = secs % 86400;
    text::two_digits(rest / 3600) + ":"@ + text::two_digits(rest % 3600 / 60) + ":"@
        + text::two_digits(rest % 60)
}

/// A span of time, in its two largest units.
pub open spec fn duration_text(secs: nat) -> Seq<char> {
    if secs < 60 {
        text::decimal(secs) + "s"@
    } else if secs < 3600 {
        text::decimal(secs / 60) + "m"@ + text::decimal(secs % 60) + "s"@
    } else if secs < 86400 {
        text::decimal(secs / 3600) + "h"@ + text::decimal(secs % 3600 / 60) + "m"@
    } else {
        text::decimal(secs / 86400) + "d"@ + text::decimal(secs % 86400 / 3600) + "h"@
    }
}

/// The time of day, in UTC.
pub fn now_hms_utc(now_unix: u64) -> (r: String)
    ensures
        r@ == hms(now_unix as nat),
{
    let rest: u64 = now_unix % 86400;
    text::two_digit_text(rest / 3600).concat(":").concat(
        text::two_digit_text(rest % 3600 / 60).as_str(),
    ).concat(":").concat(text::two_digit_text(rest % 60).as_str())
}

fn two_units(first: u64, first_unit: &str, second: u64, second_unit: &str) -> (r: String)
    ensures
        r@ == text::decimal(first as nat) + first_unit@ + text::decimal(second as nat)
            + second_unit@,
{
    text::number_text(first).concat(first_unit).concat(text::number_text(second).as_str()).concat(
        second_unit,
    )
}

pub fn format_duration(secs: u64) -> (r: String)
    ensures
        r@ == duration_text(secs as nat),
{
    if secs < 60 {
        text::number_text(secs).concat("s")
    } else if secs < 3600 {
        two_units(secs / 60, "m", secs % 60, "s")
    } else if secs < 86400 {
        two_units(secs / 3600, "h", secs % 3600 / 60, "m")
    } else {
        two_units(secs / 86400, "d", secs % 86400 / 3600, "h")
    }
}

// ---------------------------------------------------------------------------
// The database on disk
// ---------------------------------------------------------------------------

/// What to do about the database on disk.
#[derive(Debug, Clone, Copy, PartialEq, Eq, Structural)]
pub enum BootPlan {
    /// Serve it as it is, and refresh it after a while.
    Serve { next_refresh_secs: u64 },
    /// Ask the peers for a younger one, and crawl if they have none.
    Replace,
}

/// How old something is.
pub fn age_secs(built_at_unix: u64, now_unix: u64) -> (r: u64)
    ensures
        r == mesh_sync::age(built_at_unix, now_unix),
{
    now_unix.saturating_sub(built_at_unix)
}

/// What to do about a database on disk, or about having none. It is served as it is
/// only where it is younger than the refresh interval.
pub open spec fn boot_plan(
    built_at_unix: Option<u64>,
    now_unix: u64,
    refresh_interval_secs: u64,
) -> BootPlan {
    match built_at_unix {
        Some(at) => if mesh_sync::age(at, now_unix) < refresh_interval_secs {
            BootPlan::Serve {
                next_refresh_secs: (refresh_interval_secs - mesh_sync::age(at, now_unix)) as u64,
            }
        } else {
            BootPlan::Replace
        },
        None => BootPlan::Replace,
    }
}

/// Decides what to do about the database on disk.
pub fn plan_boot(
    built_at_unix: Option<u64>,
    now_unix: u64,
    refresh_interval_secs: u64,
) -> (r: BootPlan)
    ensures
        r == boot_plan(built_at_unix, now_unix, refresh_interval_secs),
{
    match built_at_unix {
        Some(at) => {
            let age: u64 = age_secs(at, now_unix);
            if age < refresh_interval_secs {
                BootPlan::Serve { next_refresh_secs: refresh_interval_secs - age }
            } else {
                BootPlan::Replace
            }
        },
        None => BootPlan::Replace,
    }
}

/// How long after a pull the first refresh is due.
pub fn delay_after_pull(built_at_unix: u64, now_unix: u64, refresh_interval_secs: u64) -> (r: u64)
    ensures
        r == if mesh_sync::age(built_at_unix, now_unix) < refresh_interval_secs {
            refresh_interval_secs - mesh_sync::age(built_at_unix, now_unix)
        } else {
            0
        },
{
    refresh_interval_secs.saturating_sub(age_secs(built_at_unix, now_unix))
}

/// What is served at startup is refreshed before it is older than the interval.
pub proof fn law_served_database_is_refreshed_in_time(
    built_at_unix: u64,
    now_unix: u64,
    refresh_interval_secs: u64,
)
    requires
        built_at_unix <= now_unix,
    ensures
        match boot_plan(Some(built_at_unix), now_unix, refresh_interval_secs) {
            BootPlan::Serve { next_refresh_secs } => {
                &&& now_unix - built_at_unix < refresh_interval_secs
                &&& now_unix + next_refresh_secs == built_at_unix + refresh_interval_secs
            },
            BootPlan::Replace => now_unix - built_at_unix >= refresh_interval_secs,
        },
{
}

} // verus!
