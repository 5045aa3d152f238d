//! Work that can be given up.
use vstd::prelude::*;

verus! {

/// Whoever asks is told to give up: work that asks at all ends without a result.
pub open spec fn always<C: Fn() -> bool>(cancelled: C) -> bool {
    forall|said: bool| #[trigger] call_ensures(cancelled, (), said) ==> said
}

/// Nothing is cancelled.
pub open spec fn never<C: Fn() -> bool>(cancelled: C) -> bool {
    forall|said: bool| #[trigger] call_ensures(cancelled, (), said) ==> !said
}

} // verus!
