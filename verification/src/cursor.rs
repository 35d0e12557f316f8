use vstd::prelude::*;

use crate::types::ContractViolation;

verus! {

/// The single forward-only counter recording the highest contiguously
/// applied sequence id. Read by admission logic to reject stale ids;
/// mutated only by the dispatcher, and only forward.
#[derive(Clone, Copy, Debug)]
pub struct SyncCursor {
    value: u64,
}

impl SyncCursor {
    /// The recorded sequence id.
    pub closed spec fn view(self) -> u64 {
        self.value
    }

    pub fn new(initial: u64) -> (r: SyncCursor)
        ensures
            r@ == initial,
    {
        SyncCursor { value: initial }
    }

    /// The highest sequence id whose action has been fully applied.
    pub fn read(&self) -> (r: u64)
        ensures
            r == self@,
    {
        self.value
    }

    /// Move the cursor forward. Moving it backward is a contract violation:
    /// it fails loudly and leaves the cursor untouched, never clamps.
    pub fn advance_to(&mut self, new_cursor: u64) -> (r: Result<(), ContractViolation>)
        ensures
            final(self)@ >= old(self)@,
            new_cursor >= old(self)@ ==> r is Ok && final(self)@ == new_cursor,
            new_cursor < old(self)@ ==> {
                &&& r == Err::<(), ContractViolation>(ContractViolation {
                    current: old(self)@,
                    requested: new_cursor,
                })
                &&& final(self)@ == old(self)@
            },
    {
        if new_cursor < self.value {
            Err(ContractViolation { current: self.value, requested: new_cursor })
        } else {
            self.value = new_cursor;
            Ok(())
        }
    }
}

} // verus!
