//! Changes of the environment that a running agent learns of at the next
//! turn boundary: a queue that is drained whole.
use vstd::prelude::*;

use crate::session::{Goal, SessionKey};

verus! {

#[derive(Debug)]
pub enum Interrupt {
    SessionSwitched { from: SessionKey, to: SessionKey, goal: Goal },
    GoalUpdated { goal: Goal },
    ConfigChanged,
    MemoryChanged { path: String },
    CompactionDone { session: SessionKey },
}

/// Interrupts sent and not yet taken, oldest first.
pub struct InterruptBus {
    queue: Vec<Interrupt>,
}

impl InterruptBus {
    pub closed spec fn pending(&self) -> Seq<Interrupt> {
        self.queue@
    }

    pub fn new() -> (b: InterruptBus)
        ensures
            b.pending() == Seq::<Interrupt>::empty(),
    {
        InterruptBus { queue: Vec::new() }
    }

    /// Queues an interrupt behind those already sent.
    pub fn send(&mut self, interrupt: Interrupt)
        ensures
            final(self).pending() == old(self).pending().push(interrupt),
    {
        self.queue.push(interrupt);
    }

    /// Every pending interrupt, in the order sent; the queue is then empty.
    pub fn take_all(&mut self) -> (r: Vec<Interrupt>)
        ensures
            r@ == old(self).pending(),
            final(self).pending() == Seq::<Interrupt>::empty(),
    {
        let mut taken: Vec<Interrupt> = Vec::new();
        std::mem::swap(&mut taken, &mut self.queue);
        taken
    }
}

} // verus!
