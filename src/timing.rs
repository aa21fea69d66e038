//! When an appointment starts, and whether it is due a reminder now.
use vstd::prelude::*;
use crate::ledger::NotifiedIds;

verus! {

/// How far ahead of its start an appointment becomes due a reminder: three
/// days, in seconds.
pub const REMINDER_WINDOW_SECONDS: i64 = 259200;

/// The UTC instant, in seconds since the Unix epoch, that an appointment start
/// text of the form `YYYY-MM-DD HH:MM:SS` names; `None` for a text that is not
/// such a date and time.
pub uninterp spec fn utc_seconds_of(text: Seq<char>) -> Option<i64>;

/// Relies on chrono's `NaiveDateTime::parse_from_str` with the pattern
/// `%Y-%m-%d %H:%M:%S`, read as UTC by `NaiveDateTime::and_utc`, and on
/// `DateTime::timestamp` for the whole seconds since the epoch: the result
/// depends on the text alone.
#[verifier::external_body]
fn parse_utc_seconds(text: &str) -> (r: Option<i64>)
    ensures
        r == utc_seconds_of(text@),
{
    match chrono::NaiveDateTime::parse_from_str(text, "%Y-%m-%d %H:%M:%S") {
        Ok(naive) => Some(naive.and_utc().timestamp()),
        Err(_) => None,
    }
}

/// The start, in UTC seconds since the epoch, written in `text`; `None` when
/// the text is malformed.
pub fn start_seconds(text: &str) -> (r: Option<i64>)
    ensures
        r == utc_seconds_of(text@),
{
    parse_utc_seconds(text)
}

/// What to do about one appointment in the current cycle.
#[derive(Debug, Clone, Copy, PartialEq, Eq, Structural)]
pub enum Decision {
    /// A reminder was already sent for it.
    AlreadyNotified,
    /// It starts more than the reminder window from now.
    NotYetDue,
    /// It has already started.
    Expired,
    /// A reminder is to be sent now.
    Eligible,
}

/// The decision for an appointment `id` starting at `start`, at time `now`
/// (both in seconds), given the identifiers already reminded.
pub open spec fn decision_of(id: u32, start: int, now: int, notified: Seq<u32>) -> Decision {
    if notified.contains(id) {
        Decision::AlreadyNotified
    } else if start <= now {
        Decision::Expired
    } else if start - now > REMINDER_WINDOW_SECONDS {
        Decision::NotYetDue
    } else {
        Decision::Eligible
    }
}

/// Classifies one appointment: already reminded first, then started, then
/// outside the window, else eligible.
pub fn classify(id: u32, start: i64, now: i64, notified: &NotifiedIds) -> (r: Decision)
    ensures
        r == decision_of(id, start as int, now as int, notified@),
{
    if notified.contains(id) {
        Decision::AlreadyNotified
    } else if start <= now {
        Decision::Expired
    } else if (start as i128) - (now as i128) > REMINDER_WINDOW_SECONDS as i128 {
        Decision::NotYetDue
    } else {
        Decision::Eligible
    }
}

/// No appointment that has started, or starts right now, is eligible.
pub proof fn lemma_started_never_eligible(id: u32, start: int, now: int, notified: Seq<u32>)
    requires
        start <= now,
    ensures
        decision_of(id, start, now, notified) != Decision::Eligible,
{
}

/// An appointment not yet reminded that starts more than the window from now
/// is not yet due.
pub proof fn lemma_far_future_not_due(id: u32, start: int, now: int, notified: Seq<u32>)
    requires
        start - now > REMINDER_WINDOW_SECONDS,
        !notified.contains(id),
    ensures
        decision_of(id, start, now, notified) == Decision::NotYetDue,
{
}

/// An appointment whose identifier is recorded is already notified, whatever
/// its timing.
pub proof fn lemma_recorded_already_notified(id: u32, start: int, now: int, notified: Seq<u32>)
    requires
        notified.contains(id),
    ensures
        decision_of(id, start, now, notified) == Decision::AlreadyNotified,
{
}

/// Classifying the same inputs twice gives the same decision.
pub proof fn lemma_classify_deterministic(
    id: u32,
    start: i64,
    now: i64,
    notified: Seq<u32>,
    first: Decision,
    second: Decision,
)
    requires
        first == decision_of(id, start as int, now as int, notified),
        second == decision_of(id, start as int, now as int, notified),
    ensures
        first == second,
{
}

/// An eligible appointment whose reminder did not go out leaves the ledger as
/// it was, and is then eligible again at any later time before it starts.
pub proof fn lemma_unsent_eligible_again(
    id: u32,
    start: int,
    now: int,
    later: int,
    notified: Seq<u32>,
)
    requires
        decision_of(id, start, now, notified) == Decision::Eligible,
        now <= later < start,
    ensures
        decision_of(id, start, later, notified) == Decision::Eligible,
{
}

} // verus!
