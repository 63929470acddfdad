//! The audit trail: one line of JSON for each request.

use crate::calendar;
use crate::calendar::CivilTime;
use crate::json;
use vstd::prelude::*;

verus! {

/// Whether `secs` seconds after 1970-01-01T00:00:00Z falls in the years -9999 to 9999.
pub open spec fn is_representable(secs: int) -> bool {
    -377_705_116_800 <= secs <= 253_402_300_799
}

/// `time::OffsetDateTime::from_unix_timestamp` gives the date and the time of day, in UTC, of the moment
/// `secs` seconds after 1970-01-01T00:00:00Z, or fails where its year is not in -9999 to 9999.
#[verifier::external_body]
fn civil_at(secs: i64) -> (t: Option<CivilTime>)
    ensures
        match t {
            Some(t) => is_representable(secs as int) && t.is_civil() && t.unix_seconds() == secs,
            None => !is_representable(secs as int),
        },
{
    time::OffsetDateTime::from_unix_timestamp(secs).ok().map(|t| CivilTime {
        year: t.year() as i64,
        month: u8::from(t.month()),
        day: t.day(),
        hour: t.hour(),
        minute: t.minute(),
        second: t.second(),
    })
}

/// A reading of the system clock, of the `time` crate.
#[verifier::external_type_specification]
#[verifier::external_body]
pub struct ExOffsetDateTime(time::OffsetDateTime);

/// `time::OffsetDateTime::now_utc` reads the system clock. Nothing is claimed of what it shows.
pub assume_specification[ time::OffsetDateTime::now_utc ]() -> time::OffsetDateTime;

/// The whole seconds from 1970-01-01T00:00:00Z to `t`, as `OffsetDateTime::unix_timestamp` counts them.
pub uninterp spec fn timestamp_of(t: time::OffsetDateTime) -> i64;

/// `time::OffsetDateTime::unix_timestamp` counts the whole seconds from 1970-01-01T00:00:00Z to `t`: a
/// function of `t` alone.
pub assume_specification[ time::OffsetDateTime::unix_timestamp ](t: time::OffsetDateTime) -> (secs: i64)
    ensures
        secs == timestamp_of(t),
;

/// Whether `text` stands for the moment `secs` seconds after 1970-01-01T00:00:00Z: the RFC 3339 text of
/// it, or a word for moments outside the years that have one.
pub open spec fn is_audit_time(text: Seq<char>, secs: int) -> bool {
    if is_representable(secs) {
        exists|t: CivilTime|
            {
                &&& #[trigger] t.is_civil()
                &&& t.unix_seconds() == secs
                &&& text == calendar::rfc3339(
                    t.year as int,
                    t.month as int,
                    t.day as int,
                    t.hour as int,
                    t.minute as int,
                    t.second as int,
                )
            }
    } else {
        text == "outside-time-range"@
    }
}

/// The RFC 3339 text of the moment `secs` seconds after 1970-01-01T00:00:00Z.
pub fn format_unix_seconds_as_rfc3339(secs: i64) -> (text: String)
    ensures
        is_audit_time(text@, secs as int),
{
    match civil_at(secs) {
        Some(t) => calendar::rfc3339_text(&t),
        None => "outside-time-range".to_owned(),
    }
}

/// The RFC 3339 text of what the system clock shows. Any moment can come back.
pub fn now_rfc3339() -> (text: String)
    ensures
        exists|t: time::OffsetDateTime| is_audit_time(text@, #[trigger] timestamp_of(t) as int),
{
    let t = time::OffsetDateTime::now_utc();
    let secs: i64 = t.unix_timestamp();
    let text = format_unix_seconds_as_rfc3339(secs);
    assert(is_audit_time(text@, timestamp_of(t) as int));
    text
}

/// A moment has one text only.
pub proof fn law_audit_time_is_unique(a: Seq<char>, b: Seq<char>, secs: int)
    requires
        is_audit_time(a, secs),
        is_audit_time(b, secs),
    ensures
        a == b,
{
    if is_representable(secs) {
        let s = choose|t: CivilTime|
            {
                &&& #[trigger] t.is_civil()
                &&& t.unix_seconds() == secs
                &&& a == calendar::rfc3339(
                    t.year as int,
                    t.month as int,
                    t.day as int,
                    t.hour as int,
                    t.minute as int,
                    t.second as int,
                )
            };
        let t = choose|t: CivilTime|
            {
                &&& #[trigger] t.is_civil()
                &&& t.unix_seconds() == secs
                &&& b == calendar::rfc3339(
                    t.year as int,
                    t.month as int,
                    t.day as int,
                    t.hour as int,
                    t.minute as int,
                    t.second as int,
                )
            };
        calendar::law_civil_is_unique(
            s.year as int,
            s.month as int,
            s.day as int,
            s.hour as int,
            s.minute as int,
            s.second as int,
            t.year as int,
            t.month as int,
            t.day as int,
            t.hour as int,
            t.minute as int,
            t.second as int,
        );
    }
}

/// What is recorded of a request.
#[derive(Clone, Debug)]
pub struct AuditRecord {
    /// When it was answered.
    pub ts: String,
    pub method: String,
    pub path: String,
    /// The status of the answer.
    pub status: u16,
    /// How long the answer took, in microseconds.
    pub latency_us: u64,
    /// The address that the request came from, empty where it is not known.
    pub remote: String,
    /// The user agent, empty where the request names none.
    pub ua: String,
}

/// The keys of a line.
pub open spec fn record_keys() -> Set<Seq<char>> {
    set!["ts"@, "method"@, "path"@, "status"@, "latency_us"@, "remote"@, "ua"@]
}

/// Whether a JSON value is an object with just what is recorded of a request.
pub open spec fn tells(v: serde_json::Value, r: AuditRecord) -> bool {
    let m = json::members(v);
    &&& json::is_object(v)
    &&& m.dom() == record_keys()
    &&& json::text_of(m["ts"@]) == Some(r.ts@)
    &&& json::text_of(m["method"@]) == Some(r.method@)
    &&& json::text_of(m["path"@]) == Some(r.path@)
    &&& json::number_of(m["status"@]) == Some(r.status as u64)
    &&& json::number_of(m["latency_us"@]) == Some(r.latency_us)
    &&& json::text_of(m["remote"@]) == Some(r.remote@)
    &&& json::text_of(m["ua"@]) == Some(r.ua@)
}

/// The line for a request, without the line break at its end.
pub fn audit_line(r: &AuditRecord) -> (line: String)
    ensures
        json::parsed(line@) is Some,
        tells(json::parsed(line@)->0, *r),
        line@ == json::compact_text(json::parsed(line@)->0),
        !line@.contains('\n'),
{
    let mut v = json::empty_object();
    proof {
        lemma_keys_differ();
    }
    json::set_member(&mut v, "ts", json::Scalar::Text(r.ts.as_str()));
    json::set_member(&mut v, "method", json::Scalar::Text(r.method.as_str()));
    json::set_member(&mut v, "path", json::Scalar::Text(r.path.as_str()));
    json::set_member(&mut v, "status", json::Scalar::Number(r.status as u64));
    json::set_member(&mut v, "latency_us", json::Scalar::Number(r.latency_us));
    json::set_member(&mut v, "remote", json::Scalar::Text(r.remote.as_str()));
    json::set_member(&mut v, "ua", json::Scalar::Text(r.ua.as_str()));
    assert(json::members(v).dom() =~= record_keys());
    match json::print_compact(&v) {
        Ok(line) => line,
        Err(_) => String::new(),
    }
}

/// The keys of a line differ from each other, and from the one that marks JSON text.
proof fn lemma_keys_differ()
    ensures
        "ts"@ != "method"@ && "ts"@ != "path"@ && "ts"@ != "status"@ && "ts"@ != "latency_us"@ && "ts"@ != "remote"@
            && "ts"@ != "ua"@,
        "method"@ != "path"@ && "method"@ != "status"@ && "method"@ != "latency_us"@ && "method"@ != "remote"@
            && "method"@ != "ua"@,
        "path"@ != "status"@ && "path"@ != "latency_us"@ && "path"@ != "remote"@ && "path"@ != "ua"@,
        "status"@ != "latency_us"@ && "status"@ != "remote"@ && "status"@ != "ua"@,
        "latency_us"@ != "remote"@ && "latency_us"@ != "ua"@,
        "remote"@ != "ua"@,
        "ts"@ != json::RAW_VALUE_KEY@ && "method"@ != json::RAW_VALUE_KEY@ && "path"@ != json::RAW_VALUE_KEY@,
        "status"@ != json::RAW_VALUE_KEY@ && "latency_us"@ != json::RAW_VALUE_KEY@,
        "remote"@ != json::RAW_VALUE_KEY@ && "ua"@ != json::RAW_VALUE_KEY@,
{
    reveal_strlit("$serde_json::private::RawValue");
    assert(json::RAW_VALUE_KEY@.len() == 30);
    reveal_strlit("ts");
    reveal_strlit("method");
    reveal_strlit("path");
    reveal_strlit("status");
    reveal_strlit("latency_us");
    reveal_strlit("remote");
    reveal_strlit("ua");
    assert("ts"@.len() == 2 && "ua"@.len() == 2 && "path"@.len() == 4 && "latency_us"@.len() == 10);
    assert("method"@.len() == 6 && "status"@.len() == 6 && "remote"@.len() == 6);
    assert("ts"@[0] == 't' && "ua"@[0] == 'u');
    assert("method"@[0] == 'm' && "status"@[0] == 's' && "remote"@[0] == 'r');
}

/// The record of a request that has just been answered: stamped with what the system clock shows, its
/// latency cut to 64 bits.
pub fn record_now(
    method: &str,
    path: &str,
    status: u16,
    latency_us: u128,
    remote: &str,
    ua: &str,
) -> (r: AuditRecord)
    ensures
        exists|t: time::OffsetDateTime| is_audit_time(r.ts@, #[trigger] timestamp_of(t) as int),
        r.method@ == method@,
        r.path@ == path@,
        r.status == status,
        r.latency_us == latency_us % 0x1_0000_0000_0000_0000,
        r.remote@ == remote@,
        r.ua@ == ua@,
{
    let cut: u64 = #[verifier::truncate] (latency_us as u64);
    assert(latency_us as u64 == latency_us % 0x1_0000_0000_0000_0000) by (bit_vector);
    let ts = now_rfc3339();
    let ghost t = choose|t: time::OffsetDateTime| is_audit_time(ts@, #[trigger] timestamp_of(t) as int);
    let r = AuditRecord {
        ts,
        method: method.to_owned(),
        path: path.to_owned(),
        status,
        latency_us: cut,
        remote: remote.to_owned(),
        ua: ua.to_owned(),
    };
    assert(is_audit_time(r.ts@, timestamp_of(t) as int));
    r
}

proof fn lemma_audit_time_tells(text: Seq<char>, secs: int)
    requires
        is_audit_time(text, secs),
    ensures
        -377_705_116_800 <= secs <= 253_402_300_799 ==> calendar::tells_moment(text, secs),
        !(-377_705_116_800 <= secs <= 253_402_300_799) ==> text == "outside-time-range"@,
{
    if is_representable(secs) {
        let t = choose|t: CivilTime|
            {
                &&& #[trigger] t.is_civil()
                &&& t.unix_seconds() == secs
                &&& text == calendar::rfc3339(
                    t.year as int,
                    t.month as int,
                    t.day as int,
                    t.hour as int,
                    t.minute as int,
                    t.second as int,
                )
            };
        calendar::lemma_tells_moment(
            t.year as int,
            t.month as int,
            t.day as int,
            t.hour as int,
            t.minute as int,
            t.second as int,
        );
    }
}

/// The text of a moment tells that moment, from the first of the year -9999 to the last of the year 9999.
/// Other moments have a word in its place.
#[verifier::spinoff_prover]
#[verifier::rlimit(50)]
pub proof fn law_audit_time_tells_the_moment(secs: i64, text: String)
    requires
        call_ensures(format_unix_seconds_as_rfc3339, (secs,), text),
    ensures
        calendar::unix_seconds(-9999, 1, 1, 0, 0, 0) <= secs <= calendar::unix_seconds(9999, 12, 31, 23, 59, 59)
            ==> calendar::tells_moment(text@, secs as int),
        !(calendar::unix_seconds(-9999, 1, 1, 0, 0, 0) <= secs <= calendar::unix_seconds(9999, 12, 31, 23, 59, 59))
            ==> text@ == "outside-time-range"@,
{
    lemma_audit_time_tells(text@, secs as int);
    calendar::lemma_four_digit_years();
}

/// Two moments of those years have the same text only if they are one.
#[verifier::spinoff_prover]
#[verifier::rlimit(50)]
pub proof fn law_audit_times_tell_moments_apart(a: i64, b: i64, text_a: String, text_b: String)
    requires
        call_ensures(format_unix_seconds_as_rfc3339, (a,), text_a),
        call_ensures(format_unix_seconds_as_rfc3339, (b,), text_b),
        -377_705_116_800 <= a <= 253_402_300_799,
        -377_705_116_800 <= b <= 253_402_300_799,
    ensures
        text_a@ == text_b@ <==> a == b,
{
    lemma_audit_time_tells(text_a@, a as int);
    lemma_audit_time_tells(text_b@, b as int);
    if text_a@ == text_b@ {
        calendar::law_text_tells_one_moment(text_a@, a as int, b as int);
    }
    if a == b {
        law_audit_time_is_unique(text_a@, text_b@, a as int);
    }
}

/// Whether a text is that of a moment which some reading of the clock shows.
pub open spec fn tells_a_reading(text: Seq<char>) -> bool {
    exists|t: time::OffsetDateTime|
        if -377_705_116_800 <= #[trigger] timestamp_of(t) <= 253_402_300_799 {
            calendar::tells_moment(text, timestamp_of(t) as int)
        } else {
            text == "outside-time-range"@
        }
}

/// The text of what the clock shows is that of a moment which some reading of it shows.
pub proof fn law_clock_is_told(text: String)
    requires
        call_ensures(now_rfc3339, (), text),
    ensures
        tells_a_reading(text@),
{
    let t = choose|t: time::OffsetDateTime| is_audit_time(text@, #[trigger] timestamp_of(t) as int);
    lemma_audit_time_tells(text@, timestamp_of(t) as int);
}

/// A record is stamped with the moment that some reading of the clock shows, and keeps what it is given.
pub proof fn law_record_tells_the_request(
    method: &str,
    path: &str,
    status: u16,
    latency_us: u128,
    remote: &str,
    ua: &str,
    r: AuditRecord,
)
    requires
        call_ensures(record_now, (method, path, status, latency_us, remote, ua), r),
    ensures
        tells_a_reading(r.ts@),
        r.method@ == method@,
        r.path@ == path@,
        r.status == status,
        latency_us <= u64::MAX ==> r.latency_us == latency_us,
        (latency_us - r.latency_us) % 0x1_0000_0000_0000_0000 == 0,
        r.remote@ == remote@,
        r.ua@ == ua@,
{
    let t = choose|t: time::OffsetDateTime| is_audit_time(r.ts@, #[trigger] timestamp_of(t) as int);
    lemma_audit_time_tells(r.ts@, timestamp_of(t) as int);
}

/// The line for a request is JSON for an object with the seven members that tell of it, each under its own
/// name, and no other.
pub proof fn law_line_tells_the_request(r: &AuditRecord, line: String)
    requires
        call_ensures(audit_line, (r,), line),
    ensures
        json::parsed(line@) is Some,
        ({
            let v = json::parsed(line@)->0;
            let m = json::members(v);
            &&& json::is_object(v)
            &&& forall|key: Seq<char>| #[trigger]
                m.contains_key(key) <==> {
                    ||| key == "ts"@ || key == "method"@ || key == "path"@ || key == "status"@
                    ||| key == "latency_us"@ || key == "remote"@ || key == "ua"@
                }
            &&& json::text_of(m["ts"@]) == Some(r.ts@)
            &&& json::text_of(m["method"@]) == Some(r.method@)
            &&& json::text_of(m["path"@]) == Some(r.path@)
            &&& json::number_of(m["status"@]) == Some(r.status as u64)
            &&& json::number_of(m["latency_us"@]) == Some(r.latency_us)
            &&& json::text_of(m["remote"@]) == Some(r.remote@)
            &&& json::text_of(m["ua"@]) == Some(r.ua@)
        }),
        forall|i: int| 0 <= i < line@.len() ==> line@[i] != '\n',
{
    let m = json::members(json::parsed(line@)->0);
    assert forall|key: Seq<char>| #[trigger] m.contains_key(key) <==> record_keys().contains(key) by {
        assert(m.dom().contains(key) == record_keys().contains(key));
    }
}

} // verus!
