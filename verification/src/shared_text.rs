//! Text that several records hold without copying it.
use crate::sharing::same_allocation;
use crate::text::same_text;
use std::sync::Arc;
use vstd::prelude::*;

verus! {

/// A text with shared ownership.
#[derive(Clone, Debug)]
pub struct SharedText {
    text: Arc<String>,
}

impl View for SharedText {
    type V = Seq<char>;

    closed spec fn view(&self) -> Seq<char> {
        self.text@
    }
}

impl SharedText {
    /// Hold a text.
    pub fn new(text: String) -> (shared: Self)
        ensures
            shared@ == text@,
    {
        SharedText { text: Arc::new(text) }
    }

    /// The text itself.
    pub fn as_str(&self) -> (text: &str)
        ensures
            text@ == self@,
    {
        self.text.as_str()
    }

    /// Asked of the allocations of two holders, the answer was `same`.
    pub closed spec fn allocations_compared(left: &Self, right: &Self, same: bool) -> bool {
        call_ensures(same_allocation::<String>, (&left.text, &right.text), same)
    }

    /// Whether two holders hold one allocation, and so the same text. Two holders of equal texts
    /// may hold different allocations: the answer is that of the allocations, not of the texts.
    pub fn ptr_eq(left: &Self, right: &Self) -> (same: bool)
        ensures
            same ==> left@ == right@,
            Self::allocations_compared(left, right, same),
    {
        same_allocation(&left.text, &right.text)
    }
}

impl From<String> for SharedText {
    fn from(text: String) -> (shared: Self) {
        SharedText { text: Arc::new(text) }
    }
}

impl vstd::std_specs::convert::FromSpecImpl<String> for SharedText {
    open spec fn obeys_from_spec() -> bool {
        true
    }

    closed spec fn from_spec(text: String) -> SharedText {
        SharedText { text: Arc::new(text) }
    }
}

impl PartialEq for SharedText {
    fn eq(&self, other: &Self) -> (same: bool) {
        same_text(self.as_str(), other.as_str())
    }
}

impl vstd::std_specs::cmp::PartialEqSpecImpl for SharedText {
    open spec fn obeys_eq_spec() -> bool {
        true
    }

    open spec fn eq_spec(&self, other: &Self) -> bool {
        self@ == other@
    }
}

impl Eq for SharedText {

}

} // verus!
