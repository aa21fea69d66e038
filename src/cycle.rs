//! One polling cycle: each fetched appointment is examined in turn, reminders
//! are handed out for dispatch, and an identifier is recorded only once its
//! reminder was sent. The caller performs the fetches and the sends.
use vstd::prelude::*;
use crate::ledger::NotifiedIds;
use crate::message::{render_body, rendered};
use crate::timing::{classify, decision_of, start_seconds, utc_seconds_of, Decision};

verus! {

/// An appointment as the scheduling API lists it.
#[derive(Debug)]
pub struct Appointment {
    pub id: u32,
    /// Start as written by the API, `YYYY-MM-DD HH:MM:SS` in UTC.
    pub start: String,
    pub customer_id: u32,
}

/// A customer as the scheduling API lists it.
#[derive(Debug)]
pub struct Customer {
    pub id: u32,
    pub first_name: String,
    pub last_name: String,
    pub email: String,
}

/// Why a fetch from the scheduling API failed.
#[derive(Debug, Clone, Copy, PartialEq, Eq, Structural)]
pub enum FetchError {
    /// The API answered with a status outside 200..=299.
    Status(u16),
    /// No answer came.
    Unreachable,
    /// The answer was not the expected list.
    BadBody,
}

/// Whether an HTTP status counts as a successful fetch.
pub fn fetch_succeeded(status: u16) -> (r: bool)
    ensures
        r == (200 <= status <= 299),
{
    200 <= status && status <= 299
}

/// Index of the first customer with identifier `id`.
pub fn find_customer(customers: &[Customer], id: u32) -> (r: Option<usize>)
    ensures
        match r {
            Some(i) => i < customers@.len() && customers@[i as int].id == id && forall|k: int|
                0 <= k < i ==> customers@[k].id != id,
            None => forall|k: int| 0 <= k < customers@.len() ==> customers@[k].id != id,
        },
{
    let mut i: usize = 0;
    while i < customers.len()
        invariant
            i <= customers@.len(),
            forall|k: int| 0 <= k < i ==> customers@[k].id != id,
        decreases customers.len() - i,
    {
        if customers[i].id == id {
            return Some(i);
        }
        i = i + 1;
    }
    None
}

/// The decision for appointment `a` at time `now`, once its start is read;
/// `None` when its start cannot be read.
pub open spec fn timed_decision(a: Appointment, now: i64, ledger: Seq<u32>) -> Option<Decision> {
    match utc_seconds_of(a.start@) {
        Some(t) => Some(decision_of(a.id, t as int, now as int, ledger)),
        None => None,
    }
}

/// `rem` is the reminder for appointment `a`, addressed to `cs[c]`, the first
/// customer with the appointment's customer identifier.
pub open spec fn reminder_from(
    rem: Reminder,
    a: Appointment,
    cs: Seq<Customer>,
    c: int,
    template: Seq<char>,
) -> bool {
    &&& 0 <= c < cs.len()
    &&& cs[c].id == a.customer_id
    &&& forall|k: int| 0 <= k < c ==> cs[k].id != a.customer_id
    &&& rem.appointment_id == a.id
    &&& rem.email@ == cs[c].email@
    &&& rem.first_name@ == cs[c].first_name@
    &&& rem.last_name@ == cs[c].last_name@
    &&& rem.body@ == rendered(template, a.start@, cs[c].first_name@, cs[c].last_name@)
}

/// A reminder to send: to whom, and the filled-in body.
#[derive(Debug)]
pub struct Reminder {
    pub appointment_id: u32,
    pub email: String,
    pub first_name: String,
    pub last_name: String,
    pub body: String,
}

/// What examining the next appointment came to.
#[derive(Debug)]
pub enum Step {
    /// No reminder: already sent, not yet due, or already started.
    Skipped(u32, Decision),
    /// The appointment's start could not be read; it is retried next cycle.
    MalformedStart(u32),
    /// No customer has the appointment's customer identifier; retried next
    /// cycle.
    UnknownCustomer(u32),
    /// Send this reminder, then report whether it went out.
    Send(Reminder),
    /// Every appointment has been examined.
    Done,
}

impl Step {
    /// Whether this step hands out a reminder.
    pub fn is_send(&self) -> (r: bool)
        ensures
            r == self is Send,
    {
        match self {
            Step::Send(_) => true,
            _ => false,
        }
    }
}

/// The step for an eligible appointment: its reminder, addressed to the first
/// customer with its customer identifier, or `UnknownCustomer` when none has.
fn address_reminder(a: &Appointment, customers: &[Customer], template: &str) -> (r: Step)
    ensures
        r is UnknownCustomer || r is Send,
        r is UnknownCustomer ==> r->UnknownCustomer_0 == a.id && forall|k: int|
            0 <= k < customers@.len() ==> customers@[k].id != a.customer_id,
        r is Send ==> exists|c: int| reminder_from(r->Send_0, *a, customers@, c, template@),
{
    match find_customer(customers, a.customer_id) {
        None => Step::UnknownCustomer(a.id),
        Some(c) => {
            let customer = &customers[c];
            let body = render_body(
                template,
                a.start.as_str(),
                customer.first_name.as_str(),
                customer.last_name.as_str(),
            );
            let rem = Reminder {
                appointment_id: a.id,
                email: customer.email.clone(),
                first_name: customer.first_name.clone(),
                last_name: customer.last_name.clone(),
                body,
            };
            let r = Step::Send(rem);
            assert(reminder_from(r->Send_0, *a, customers@, c as int, template@));
            r
        },
    }
}

/// The state of one cycle.
pub struct ReminderCycle {
    notified: NotifiedIds,
    appointments: Vec<Appointment>,
    customers: Vec<Customer>,
    now: i64,
    template: String,
    next: usize,
    awaiting: Option<u32>,
}

impl ReminderCycle {
    /// The working ledger.
    pub closed spec fn ledger(&self) -> Seq<u32> {
        self.notified@
    }

    /// The appointments fetched for this cycle, in the order fetched.
    pub closed spec fn appointment_list(&self) -> Seq<Appointment> {
        self.appointments@
    }

    /// The customers fetched for this cycle.
    pub closed spec fn customer_list(&self) -> Seq<Customer> {
        self.customers@
    }

    /// The time the cycle runs at, in UTC seconds since the epoch.
    pub closed spec fn time(&self) -> i64 {
        self.now
    }

    /// The template of the reminder's body.
    pub closed spec fn body_template(&self) -> Seq<char> {
        self.template@
    }

    /// How many appointments have been examined.
    pub closed spec fn position(&self) -> int {
        self.next as int
    }

    /// The appointment whose reminder was handed out and not yet reported.
    pub closed spec fn pending(&self) -> Option<u32> {
        self.awaiting
    }

    /// Starts a cycle over what was fetched; when either fetch failed the
    /// cycle is abandoned and the ledger comes back unchanged.
    pub fn begin(
        notified: NotifiedIds,
        appointments: Result<Vec<Appointment>, FetchError>,
        customers: Result<Vec<Customer>, FetchError>,
        now: i64,
        template: String,
    ) -> (r: Result<ReminderCycle, (NotifiedIds, FetchError)>)
        ensures
            match (appointments, customers) {
                (Ok(a), Ok(c)) => r matches Ok(cy) && cy.ledger() == notified@
                    && cy.appointment_list() == a@ && cy.customer_list() == c@ && cy.time() == now
                    && cy.body_template() == template@ && cy.position() == 0
                    && cy.pending() is None,
                (Err(e), _) => r matches Err((n, e2)) && n@ == notified@ && e2 == e,
                (Ok(_), Err(e)) => r matches Err((n, e2)) && n@ == notified@ && e2 == e,
            },
    {
        match appointments {
            Err(e) => Err((notified, e)),
            Ok(a) => match customers {
                Err(e) => Err((notified, e)),
                Ok(c) => Ok(
                    ReminderCycle {
                        notified,
                        appointments: a,
                        customers: c,
                        now,
                        template,
                        next: 0,
                        awaiting: None,
                    },
                ),
            },
        }
    }

    /// Whether a reminder handed out by `step` still awaits `report`.
    pub fn awaiting_report(&self) -> (r: bool)
        ensures
            r == self.pending() is Some,
    {
        self.awaiting.is_some()
    }

    /// Examines the next appointment, in the order fetched.
    pub fn step(&mut self) -> (r: Step)
        requires
            old(self).pending() is None,
        ensures
            final(self).ledger() == old(self).ledger(),
            final(self).appointment_list() == old(self).appointment_list(),
            final(self).customer_list() == old(self).customer_list(),
            final(self).time() == old(self).time(),
            final(self).body_template() == old(self).body_template(),
            old(self).position() >= old(self).appointment_list().len() ==> r is Done
                && final(self).position() == old(self).position() && final(self).pending() is None,
            old(self).position() < old(self).appointment_list().len() ==> {
                let a = old(self).appointment_list()[old(self).position()];
                let cs = old(self).customer_list();
                &&& final(self).position() == old(self).position() + 1
                &&& (r is Send <==> final(self).pending() is Some)
                &&& (final(self).pending() is Some ==> final(self).pending() == Some(a.id))
                &&& match r {
                    Step::Skipped(id, d) => id == a.id && d != Decision::Eligible && (
                    old(self).ledger().contains(a.id) ==> d == Decision::AlreadyNotified) && (
                    !old(self).ledger().contains(a.id) ==> timed_decision(a, old(self).time(), old(self).ledger())
                        == Some(d)),
                    Step::MalformedStart(id) => id == a.id && !old(self).ledger().contains(a.id)
                        && utc_seconds_of(a.start@) is None,
                    Step::UnknownCustomer(id) => id == a.id && timed_decision(a, old(self).time(), old(self).ledger())
                        == Some(Decision::Eligible) && forall|k: int|
                        0 <= k < cs.len() ==> cs[k].id != a.customer_id,
                        Step::Send(rem) => timed_decision(a, old(self).time(), old(self).ledger())
                        == Some(Decision::Eligible) && exists|c: int|
                        reminder_from(rem, a, cs, c, old(self).body_template()),
                    Step::Done => false,
                }
            },
    {
        if self.next >= self.appointments.len() {
            return Step::Done;
        }
        let i = self.next;
        self.next = i + 1;
        let id = self.appointments[i].id;
        if self.notified.contains(id) {
            return Step::Skipped(id, Decision::AlreadyNotified);
        }
        let start = match start_seconds(self.appointments[i].start.as_str()) {
            Some(t) => t,
            None => {
                return Step::MalformedStart(id);
            },
        };
        let d = classify(id, start, self.now, &self.notified);
        if d != Decision::Eligible {
            return Step::Skipped(id, d);
        }
        let ghost a = self.appointments@[i as int];
        let r = address_reminder(&self.appointments[i], self.customers.as_slice(), self.template.as_str());
        if r.is_send() {
            self.awaiting = Some(id);
        }
        proof {
            if r is Send {
                let rem = r->Send_0;
                let c = choose|c: int| reminder_from(rem, a, self.customers@, c, self.template@);
                assert(reminder_from(rem, a, old(self).customer_list(), c, old(self).body_template()));
            }
        }
        r
    }

    /// Reports whether the reminder handed out last went out; only a sent
    /// reminder has its appointment recorded.
    pub fn report(&mut self, sent: bool)
        ensures
            final(self).pending() is None,
            final(self).ledger() == (if sent && old(self).pending() is Some {
                let id = old(self).pending()->0;
                if old(self).ledger().contains(id) {
                    old(self).ledger()
                } else {
                    old(self).ledger().push(id)
                }
            } else {
                old(self).ledger()
            }),
            final(self).appointment_list() == old(self).appointment_list(),
            final(self).customer_list() == old(self).customer_list(),
            final(self).time() == old(self).time(),
            final(self).body_template() == old(self).body_template(),
            final(self).position() == old(self).position(),
    {
        if let Some(id) = self.awaiting {
            if sent {
                self.notified.insert(id);
            }
        }
        self.awaiting = None;
    }

    /// Ends the cycle, handing back the working ledger to be stored.
    pub fn finish(self) -> (r: NotifiedIds)
        ensures
            r@ == self.ledger(),
    {
        self.notified
    }
}

/// Seconds that the scheduler sleeps between two cycles: one hour.
pub const CYCLE_INTERVAL_SECONDS: u64 = 3600;

/// The scheduler's two states: running a cycle, or sleeping until the next.
/// It starts in `Running` and has no final state.
#[derive(Debug, Clone, Copy, PartialEq, Eq, Structural)]
pub enum Phase {
    Running,
    Sleeping,
}

impl Phase {
    /// The state the scheduler starts in.
    pub fn initial() -> (r: Phase)
        ensures
            r == Phase::Running,
    {
        Phase::Running
    }

    /// The state after this one ends: a finished cycle is followed by a
    /// sleep, a sleep by the next cycle.
    pub fn next(self) -> (r: Phase)
        ensures
            self == Phase::Running ==> r == Phase::Sleeping,
            self == Phase::Sleeping ==> r == Phase::Running,
    {
        match self {
            Phase::Running => Phase::Sleeping,
            Phase::Sleeping => Phase::Running,
        }
    }
}

} // verus!
