//! The counters of the work that goes on behind the transactions.
use vstd::prelude::*;
use vstd::string::*;

verus! {

/// What the background work has done so far.
pub struct MaintenanceStats {
    pub passes: u64,
    pub vacuums_with_work: u64,
    pub transactions_forgotten: u64,
    pub records_discarded: u64,
    pub tombstones_purged: u64,
    pub abort_retries: u64,
    pub checkpoints: u64,
    pub errors: u64,
    pub last_error: Option<String>,
}

/// The counters, as values.
#[verifier::ext_equal]
pub struct Counts {
    pub passes: u64,
    pub vacuums_with_work: u64,
    pub transactions_forgotten: u64,
    pub records_discarded: u64,
    pub tombstones_purged: u64,
    pub abort_retries: u64,
    pub checkpoints: u64,
    pub errors: u64,
    pub last_error: Option<Seq<char>>,
}

/// An optional text, as a value.
pub open spec fn opt_text(t: Option<String>) -> Option<Seq<char>> {
    match t {
        Some(t) => Some(t@),
        None => None,
    }
}

impl View for MaintenanceStats {
    type V = Counts;

    open spec fn view(&self) -> Counts {
        Counts {
            passes: self.passes,
            vacuums_with_work: self.vacuums_with_work,
            transactions_forgotten: self.transactions_forgotten,
            records_discarded: self.records_discarded,
            tombstones_purged: self.tombstones_purged,
            abort_retries: self.abort_retries,
            checkpoints: self.checkpoints,
            errors: self.errors,
            last_error: opt_text(self.last_error),
        }
    }
}

impl Counts {
    /// Nothing has been done.
    pub open spec fn none() -> Counts {
        Counts {
            passes: 0,
            vacuums_with_work: 0,
            transactions_forgotten: 0,
            records_discarded: 0,
            tombstones_purged: 0,
            abort_retries: 0,
            checkpoints: 0,
            errors: 0,
            last_error: None,
        }
    }

    /// Something went wrong.
    pub open spec fn failed(self, t: Seq<char>) -> Counts {
        Counts { errors: self.errors.wrapping_add(1), last_error: Some(t), ..self }
    }
}

impl Default for MaintenanceStats {
    fn default() -> (m: MaintenanceStats)
        ensures
            m@ == Counts::none(),
    {
        MaintenanceStats {
            passes: 0,
            vacuums_with_work: 0,
            transactions_forgotten: 0,
            records_discarded: 0,
            tombstones_purged: 0,
            abort_retries: 0,
            checkpoints: 0,
            errors: 0,
            last_error: None,
        }
    }
}

impl MaintenanceStats {
    /// Counts an error and keeps its text.
    pub fn record_error(&mut self, e: String)
        ensures
            final(self)@ == old(self)@.failed(e@),
    {
        self.errors = self.errors.wrapping_add(1);
        self.last_error = Some(e);
    }
}

} // verus!
