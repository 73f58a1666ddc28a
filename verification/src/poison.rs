//! Cooperative cancellation. A poison is a shared flag plus an optional
//! deadline: evaluation probes it between tuples, a kill sets the flag, and
//! a timeout arms the deadline. To the proofs every probe is nondeterministic
//! - another thread or the clock may trip it at any moment - so everything
//! downstream is verified for both outcomes.

use std::sync::atomic::{AtomicBool, Ordering};
use std::sync::Arc;
use vstd::prelude::*;

use crate::error::Error;

verus! {

/// Relies on `std::time::SystemTime::now` and `duration_since(UNIX_EPOCH)`:
/// the wall clock as microseconds since the epoch; nothing is assumed of the
/// value it returns.
#[verifier::external_body]
pub(crate) fn now_micros() -> u64 {
    match std::time::SystemTime::now().duration_since(std::time::UNIX_EPOCH) {
        Ok(d) => d.as_micros() as u64,
        Err(_) => 0,
    }
}

/// Relies on `Arc::clone`: the copy shares the same allocation, so a store
/// through one handle is seen by loads through the other.
#[verifier::external_body]
fn share_flag(f: &Arc<AtomicBool>) -> Arc<AtomicBool> {
    Arc::clone(f)
}

/// The cancellation token of one running query.
pub struct Poison {
    pub flag: Arc<AtomicBool>,
    pub deadline_micros: Option<u64>,
}

impl Poison {
    /// A fresh, untripped poison.
    pub fn new() -> (r: Poison)
        ensures
            r.deadline_micros is None,
    {
        Poison { flag: Arc::new(AtomicBool::new(false)), deadline_micros: None }
    }

    /// A handle on the same flag: killing one kills the other. The deadline
    /// travels with the copy.
    pub fn share(&self) -> (r: Poison)
        ensures
            r.deadline_micros == self.deadline_micros,
    {
        Poison { flag: share_flag(&self.flag), deadline_micros: self.deadline_micros }
    }

    /// Trips the flag; every further probe through any sharing handle fails.
    pub fn set(&self) {
        self.flag.store(true, Ordering::Relaxed);
    }

    /// Arms the deadline `micros` from now. Probes past the deadline fail
    /// even if nobody sets the flag.
    pub fn set_timeout_micros(&mut self, micros: u64)
        ensures
            final(self).deadline_micros is Some,
    {
        let now = now_micros();
        let d = if micros > u64::MAX - now {
            u64::MAX
        } else {
            now + micros
        };
        self.deadline_micros = Some(d);
    }

    /// Probes the poison: true when the flag is set or the deadline passed.
    /// The outcome is nondeterministic to callers, which must be correct
    /// either way.
    pub fn is_killed(&self) -> bool {
        if self.flag.load(Ordering::Relaxed) {
            return true;
        }
        match self.deadline_micros {
            Some(d) => now_micros() >= d,
            None => false,
        }
    }

    /// The probe evaluation calls between tuples: failure `eval::killed`
    /// exactly when the poison has tripped at the moment of the probe.
    pub fn check(&self) -> (r: Result<(), Error>)
        ensures
            r matches Err(e) ==> e is Killed,
    {
        if self.is_killed() {
            Err(Error::Killed)
        } else {
            Ok(())
        }
    }
}

} // verus!
