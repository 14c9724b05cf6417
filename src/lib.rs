//! Publisher confirmations of one AMQP channel: the table of outstanding
//! confirmations, the settle-once broadcast value each of them is, and the
//! deduplicated registry of tasks waiting on it.

use vstd::prelude::*;

pub mod sequence;
pub mod waiters;
pub mod confirmation;
pub mod broadcast;
pub mod acknowledgement;

verus! {

} // verus!
