//! The reminder's body: the configured template with its three placeholders
//! filled in.
use vstd::prelude::*;

verus! {

/// Placeholder for the appointment's date and time, as the scheduling API
/// wrote it.
pub const DATETIME_TOKEN: &'static str = "%APPOINTMENT_DATETIME%";

/// Placeholder for the customer's first name.
pub const FIRST_NAME_TOKEN: &'static str = "%FIRST_NAME%";

/// Placeholder for the customer's last name.
pub const LAST_NAME_TOKEN: &'static str = "%LAST_NAME%";

/// `s` with every occurrence of `from` replaced by `to`, occurrences being
/// found left to right without overlapping.
pub open spec fn replaced(s: Seq<char>, from: Seq<char>, to: Seq<char>) -> Seq<char>
    decreases s.len(),
{
    if s.len() == 0 {
        Seq::empty()
    } else if 0 < from.len() <= s.len() && s.take(from.len() as int) == from {
        to + replaced(s.skip(from.len() as int), from, to)
    } else {
        seq![s[0]] + replaced(s.skip(1), from, to)
    }
}

/// Relies on std's `str::replace`, which replaces each match of a non-empty
/// pattern, matches being taken left to right without overlapping.
#[verifier::external_body]
fn replace_all(s: &str, from: &str, to: &str) -> (r: String)
    requires
        from@.len() > 0,
    ensures
        r@ == replaced(s@, from@, to@),
{
    s.replace(from, to)
}

/// The body of a template once filled for one appointment.
pub open spec fn rendered(
    template: Seq<char>,
    when: Seq<char>,
    first: Seq<char>,
    last: Seq<char>,
) -> Seq<char> {
    replaced(
        replaced(replaced(template, DATETIME_TOKEN@, when), FIRST_NAME_TOKEN@, first),
        LAST_NAME_TOKEN@,
        last,
    )
}

/// Fills the template: first the date and time, then the first name, then
/// the last name.
pub fn render_body(template: &str, when: &str, first: &str, last: &str) -> (r: String)
    ensures
        r@ == rendered(template@, when@, first@, last@),
{
    proof {
        reveal_strlit("%APPOINTMENT_DATETIME%");
        reveal_strlit("%FIRST_NAME%");
        reveal_strlit("%LAST_NAME%");
    }
    let a = replace_all(template, DATETIME_TOKEN, when);
    let b = replace_all(a.as_str(), FIRST_NAME_TOKEN, first);
    replace_all(b.as_str(), LAST_NAME_TOKEN, last)
}

} // verus!
