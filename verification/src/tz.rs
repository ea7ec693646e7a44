use vstd::prelude::*;
use vstd::string::StringExecFns;

verus! {

/// Whether chrono-tz's zone table knows this IANA zone name.
pub uninterp spec fn zone_is_valid(s: Seq<char>) -> bool;

/// The display form of the instant `t` (seconds since the Unix epoch) in
/// the named zone: abbreviated month, day, year, twelve-hour time and
/// zone abbreviation.
pub uninterp spec fn formatted_in_zone(t: i64, zone: Seq<char>) -> Seq<char>;

/// The zone a display actually uses: the named one where the zone table
/// knows it, else UTC.
pub open spec fn display_zone(z: Seq<char>) -> Seq<char> {
    if zone_is_valid(z) {
        z
    } else {
        "UTC"@
    }
}

/// Relies on chrono_tz's `Tz: FromStr`: parsing succeeds exactly for the
/// names in its built-in zone table, a function of the string alone.
#[verifier::external_body]
fn zone_valid(s: &str) -> (r: bool)
    ensures
        r == zone_is_valid(s@),
{
    s.parse::<chrono_tz::Tz>().is_ok()
}

/// Relies on chrono's timestamp construction and formatting together with
/// a chrono_tz zone: for an in-range instant the outcome is a function of
/// the instant and the zone name alone (the zone table is compiled into
/// chrono-tz), and a name the table does not know falls back to UTC.
#[verifier::external_body]
pub(crate) fn format_in_zone(t: i64, zone: &str) -> (r: String)
    requires
        -100_000_000_000 <= t <= 400_000_000_000,
    ensures
        r@ == formatted_in_zone(t, display_zone(zone@)),
{
    let tz: chrono_tz::Tz = zone.parse().unwrap_or(chrono_tz::Tz::UTC);
    let dt = chrono::DateTime::<chrono::Utc>::from_timestamp(t, 0).unwrap();
    dt.with_timezone(&tz).format("%b %-d, %Y %-I:%M %p %Z").to_string()
}

/// The viewer's display zone, as resolved from request signals.
pub struct UserTz(pub String);

pub open spec fn opt_str_view(o: Option<&str>) -> Option<Seq<char>> {
    match o {
        Some(s) => Some(s@),
        None => None,
    }
}

/// First match wins: a valid header value, else a valid cookie value,
/// else UTC.  An absent or invalid signal only falls through.
pub open spec fn resolved_zone(h: Option<Seq<char>>, c: Option<Seq<char>>) -> Seq<char> {
    if h matches Some(hs) && zone_is_valid(hs) {
        h->0
    } else if c matches Some(cs) && zone_is_valid(cs) {
        c->0
    } else {
        "UTC"@
    }
}

/// Derives the display zone from the per-request header value and the
/// persisted cookie value.  Resolution never fails; it only degrades.
pub fn resolve_timezone(header: Option<&str>, cookie: Option<&str>) -> (r: UserTz)
    ensures
        r.0@ == resolved_zone(opt_str_view(header), opt_str_view(cookie)),
{
    if let Some(h) = header {
        if zone_valid(h) {
            return UserTz(h.to_owned());
        }
    }
    if let Some(c) = cookie {
        if zone_valid(c) {
            return UserTz(c.to_owned());
        }
    }
    UserTz(String::from_str("UTC"))
}

} // verus!
