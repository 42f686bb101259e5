//! First-come, first-served policy.
use vstd::prelude::*;

use crate::input::PolicyConfig;
use crate::kernel::Policy;
use std::collections::VecDeque;

verus! {

/// Selects the oldest entry of the kernel's single global FIFO ready queue.
#[derive(Debug, Clone, Copy, Default, PartialEq, Eq, Structural)]
pub struct FcfsPolicy;

impl Policy for FcfsPolicy {
    open spec fn spec_configuration(&self) -> PolicyConfig {
        PolicyConfig::Fcfs
    }

    open spec fn spec_quantum(&self) -> Option<u64> {
        None
    }

    fn configuration(&self) -> (r: PolicyConfig) {
        PolicyConfig::Fcfs
    }

    fn quantum(&self) -> (r: Option<u64>) {
        None
    }

    /// The head of the queue, which stays in place.
    fn select(&mut self, ready: &VecDeque<usize>) -> (r: Option<usize>)
        ensures
            r == (if ready@.len() > 0 { Some(ready@[0]) } else { None::<usize> }),
            *final(self) == *old(self),
    {
        if ready.len() > 0 {
            Some(ready[0])
        } else {
            None
        }
    }
}

} // verus!
