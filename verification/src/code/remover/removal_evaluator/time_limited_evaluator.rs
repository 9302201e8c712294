//! Removal by date: a directive is due once the instant in its `to` has come.
use crate::code::remover::removal_evaluator::RemovalEvaluator;
use crate::element_parser::{first_named, Element, ElementView};
use vstd::prelude::*;
use vstd::string::StringExecFns;
use vstd::string::StringSliceAdditionalSpecFns;
use vstd::utf8::{decode_utf8, encode_utf8_decode_utf8};

verus! {

/// A point in time: whole seconds since 1970-01-01 00:00:00 UTC, and the
/// nanoseconds into that second.
#[derive(Debug, PartialEq, Eq, Clone, Copy)]
pub struct Instant {
    pub secs: i64,
    pub nanos: u32,
}

/// True when `a` comes before `b`.
pub open spec fn comes_before(a: Instant, b: Instant) -> bool {
    a.secs < b.secs || (a.secs == b.secs && a.nanos < b.nanos)
}

/// The time that counts as now, and the offset from UTC in which the dates of
/// the directives are written.
#[derive(Debug, PartialEq, Clone)]
pub struct TimeLimitedEvaluator {
    pub current_time: Instant,
    pub time_offset: String,
}

/// The form in which a date with its offset is written:
/// `YYYY-MM-DD HH:MM:SS ±HHMM`.
pub open spec fn expiry_format() -> Seq<char> {
    "%Y-%m-%d %H:%M:%S %z"@
}

/// The instant that the text `text` spells when it is read in the form
/// `format`, as seconds since 1970-01-01 00:00:00 UTC and nanoseconds; nothing
/// where the text is not of that form.
pub uninterp spec fn expiry_instant(text: Seq<char>, format: Seq<char>) -> Option<(i64, u32)>;

/// Calls chrono's `DateTime::parse_from_str` on `text` with the format
/// `format`, which must be the form of a date with its offset. What the call
/// gives depends on the two texts alone; the contract gives that result the
/// name `expiry_instant`, with the parsed time taken as its `timestamp` and
/// `timestamp_subsec_nanos`, and says no more of it.
#[verifier::external_body]
fn parse_expiry(text: &str, format: &str) -> (instant: Option<(i64, u32)>)
    requires
        format@ == expiry_format(),
    ensures
        instant == expiry_instant(text@, format@),
{
    match chrono::DateTime::parse_from_str(text, format) {
        Ok(time) => Some((time.timestamp(), time.timestamp_subsec_nanos())),
        Err(_) => None,
    }
}

/// Whether a directive is due at `now` when its date has been read as
/// `expiry`: it is due unless the date could not be read or still lies ahead.
pub open spec fn spec_is_expired(now: Instant, expiry: Option<(i64, u32)>) -> bool {
    match expiry {
        Some((secs, nanos)) => !comes_before(now, Instant { secs, nanos }),
        None => false,
    }
}

/// Whether a directive is due at `now` when its date has been read as
/// `expiry`.
pub fn is_expired(now: Instant, expiry: Option<(i64, u32)>) -> (expired: bool)
    ensures
        expired == spec_is_expired(now, expiry),
{
    match expiry {
        Some((secs, nanos)) => !(now.secs < secs || (now.secs == secs && now.nanos < nanos)),
        None => false,
    }
}

/// The text that is read as a date: the value of `to`, a space, the offset.
pub open spec fn dated_text(value: Seq<u8>, time_offset: Seq<char>) -> Seq<char> {
    decode_utf8(value) + " "@ + time_offset
}

/// Whether a directive with these attributes is due at `now`: its first `to`
/// attribute has a value, the value with the offset spells an instant, and
/// that instant does not lie ahead of `now`.
pub open spec fn spec_is_due(now: Instant, time_offset: Seq<char>, start_el: ElementView) -> bool {
    match first_named(start_el.attrs, "to".spec_bytes()) {
        Some(attr) => match attr.value {
            Some(value) => spec_is_expired(now, expiry_instant(dated_text(value, time_offset), expiry_format())),
            None => false,
        },
        None => false,
    }
}

impl TimeLimitedEvaluator {
    /// The instant that `value` spells in this evaluator's offset.
    pub fn read_expiry(&self, value: &str) -> (expiry: Option<(i64, u32)>)
        ensures
            expiry == expiry_instant(dated_text(value.spec_bytes(), self.time_offset@), expiry_format()),
    {
        let mut text = String::from_str(value);
        text.append(" ");
        text.append(self.time_offset.as_str());
        proof {
            encode_utf8_decode_utf8(value@);
        }
        parse_expiry(text.as_str(), "%Y-%m-%d %H:%M:%S %z")
    }
}

impl RemovalEvaluator for TimeLimitedEvaluator {
    open spec fn removal(&self, start_el: ElementView) -> bool {
        spec_is_due(self.current_time, self.time_offset@, start_el)
    }

    fn is_removal(&self, start_el: &Element) -> (removal: bool) {
        match start_el.attribute("to") {
            Some(attr) => match attr.value {
                Some(value) => is_expired(self.current_time, self.read_expiry(value)),
                None => false,
            },
            None => false,
        }
    }
}

} // verus!
