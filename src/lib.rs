//! An in-process message bus: publish/subscribe with wildcard topic matching,
//! priority-ordered subscribers, point-to-point endpoints and request/reply
//! correlation.

mod endpoints;
pub mod handler;
pub mod laws;
pub mod matching;
pub mod msgbus;
pub mod subscription;

pub use handler::{MessageHandler, UUID4};
pub use matching::is_matching;
pub use msgbus::MessageBus;
pub use subscription::Subscription;
