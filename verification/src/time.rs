//! Instants in time as plain values, and the calls that read the system clock.

use vstd::prelude::*;

verus! {

/// An instant in UTC: whole seconds since the Unix epoch and the
/// nanoseconds past that second (as `chrono` reports them).
#[derive(Clone, Copy, Debug, PartialEq, Eq, Structural)]
pub struct Timestamp {
    pub secs: i64,
    pub nanos: u32,
}

impl Timestamp {
    /// `self` lies strictly before `other` on the time line.
    pub open spec fn precedes(self, other: Timestamp) -> bool {
        self.secs < other.secs || (self.secs == other.secs && self.nanos < other.nanos)
    }

    /// Whether `self` lies strictly before `other`.
    pub fn is_before(&self, other: &Timestamp) -> (r: bool)
        ensures
            r == self.precedes(*other),
    {
        self.secs < other.secs || (self.secs == other.secs && self.nanos < other.nanos)
    }
}

/// The RFC 3339 text that chrono gives the instant `secs`, `nanos` (as
/// `DateTime::<Utc>::from_timestamp` then `DateTime::to_rfc3339`), or `None`
/// when chrono cannot represent that instant.
pub uninterp spec fn rfc3339_text(secs: i64, nanos: u32) -> Option<Seq<char>>;

/// The text form of an instant written by the clock: `t` is one that
/// chrono represents, and `s` is its RFC 3339 text.
pub open spec fn is_rfc3339_of_some_instant(s: String) -> bool {
    exists|t: Timestamp| rfc3339_text(t.secs, t.nanos) == Some(s@)
}

/// Reads the system clock as a `chrono` instant: `DateTime::<Utc>::from`
/// applied to `std::time::SystemTime::now()`.
///
/// Trusted: the instant is whatever the clock says, so nothing ties it to an
/// argument. chrono's conversion splits the time since (or before) the epoch
/// into whole seconds and a sub-second part below one second, also for a
/// clock set before 1970, and builds the value with `from_timestamp` on
/// exactly those two numbers, which `timestamp` and
/// `timestamp_subsec_nanos` give back; so the instant is one that
/// `from_timestamp` accepts. Its final `unwrap` can only fail for an instant
/// outside chrono's range of about 262,000 years around the present.
#[verifier::external_body]
pub(crate) fn utc_now() -> (t: Timestamp)
    ensures
        t.nanos < 1_000_000_000,
        rfc3339_text(t.secs, t.nanos) is Some,
{
    let now = chrono::DateTime::<chrono::Utc>::from(std::time::SystemTime::now());
    Timestamp { secs: now.timestamp(), nanos: now.timestamp_subsec_nanos() }
}

/// The RFC 3339 text of an instant: `DateTime::<Utc>::from_timestamp`
/// followed by `DateTime::to_rfc3339`; `None` when `from_timestamp` refuses
/// the instant.
///
/// Trusted: the text is named `rfc3339_text` and not spelled out here.
#[verifier::external_body]
pub(crate) fn rfc3339_of(t: Timestamp) -> (r: Option<String>)
    ensures
        match r {
            Some(s) => rfc3339_text(t.secs, t.nanos) == Some(s@),
            None => rfc3339_text(t.secs, t.nanos) is None,
        },
{
    match chrono::DateTime::<chrono::Utc>::from_timestamp(t.secs, t.nanos) {
        Some(d) => Some(d.to_rfc3339()),
        None => None,
    }
}

/// The current instant in RFC 3339 form, read from the clock.
pub(crate) fn utc_now_rfc3339() -> (s: String)
    ensures
        is_rfc3339_of_some_instant(s),
{
    let now = utc_now();
    match rfc3339_of(now) {
        Some(text) => text,
        None => {
            proof {
                assert(false);
            }
            String::new()
        },
    }
}


/// Law: `precedes` is a strict total order on instants: no instant precedes
/// itself, it is transitive, and of two different instants exactly one
/// precedes the other.
pub proof fn law_precedes_strict_total_order(a: Timestamp, b: Timestamp, c: Timestamp)
    ensures
        !a.precedes(a),
        a.precedes(b) && b.precedes(c) ==> a.precedes(c),
        a != b ==> (a.precedes(b) != b.precedes(a)),
        a.precedes(b) ==> !b.precedes(a),
{
}

} // verus!
