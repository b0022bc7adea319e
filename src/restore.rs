use vstd::prelude::*;

use crate::chain::latest_complete;
use crate::context::{descending, resume_plan, ResumePlan};
use crate::record::{registers_of, stack_of, SP_SLOT};
use crate::store::LogStore;

verus! {

/// What to do on power-up.
pub enum BootDecision {
    /// No complete checkpoint: run the program from its entry point.
    ColdStart,
    /// Continue from the latest complete checkpoint; this does not return.
    Resume(ResumePlan),
}

/// Decides, from the log as found on power-up, whether to start cold or to
/// resume the latest complete record.
pub fn boot(store: &LogStore) -> (r: BootDecision)
    ensures
        match latest_complete(store.words@) {
            None => r is ColdStart,
            Some(i) => r matches BootDecision::Resume(p) && {
                let regs = registers_of(store.words@, i);
                &&& p.live@ == descending(stack_of(store.words@, i))
                &&& p.registers.words@ == regs
                &&& p.stack_pointer == regs[SP_SLOT as int]
            },
        },
{
    match store.latest_record() {
        None => BootDecision::ColdStart,
        Some(rec) => BootDecision::Resume(resume_plan(&rec)),
    }
}

} // verus!
