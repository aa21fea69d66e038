//! Appointment reminder engine: decides which upcoming appointments get a
//! one-time email reminder, and keeps the durable ledger of reminders sent.

pub mod ledger;
pub mod timing;
pub mod message;
pub mod cycle;
