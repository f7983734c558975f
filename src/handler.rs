//! Handlers and request identifiers as the bus sees them.

use vstd::prelude::*;

verus! {

/// A handler that messages, requests or responses are delivered to.
///
/// The bus only references a handler: it is identified by `handler_id`, and
/// whatever invokes it is kept by the owner of the bus under that id.
#[derive(Debug, Clone, PartialEq, Eq)]
pub struct MessageHandler {
    pub handler_id: String,
}

impl View for MessageHandler {
    type V = Seq<char>;

    open spec fn view(&self) -> Seq<char> {
        self.handler_id@
    }
}

impl MessageHandler {
    /// A handler with the given identifier.
    pub fn new(handler_id: &str) -> (r: Self)
        ensures
            r@ == handler_id@,
    {
        MessageHandler { handler_id: handler_id.to_owned() }
    }

    /// A second handler with the same identifier.
    pub fn duplicate(&self) -> (r: Self)
        ensures
            r@ == self@,
    {
        MessageHandler { handler_id: self.handler_id.clone() }
    }
}

/// The identifier of a request, pairing it with its response.
#[derive(Debug, Clone, Copy, PartialEq, Eq, Structural, Hash)]
pub struct UUID4 {
    pub value: u128,
}

impl UUID4 {
    /// The identifier whose 128 bits are `value`.
    pub fn from_u128(value: u128) -> (r: Self)
        ensures
            r.value == value,
    {
        UUID4 { value }
    }
}

} // verus!
