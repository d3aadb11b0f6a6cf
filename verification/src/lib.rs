//! A reactive user-interface core: a virtual tree of elements and text
//! leaves, a structural diff engine that turns two tree snapshots into a
//! minimal edit script, a view builder that pairs a tree with its event
//! handlers, and the single-threaded runtime loop that drives state
//! transitions, render scheduling and handler dispatch.

pub mod builder;
pub mod handler_map;
pub mod ids;
pub mod laws;
pub mod model;
pub mod runtime;
pub mod vdom;

pub use builder::{AppView, Child};
pub use handler_map::HandlerMap;
pub use ids::{handler, uuid};
pub use runtime::{App, Env, EnvModel, Task};
pub use vdom::{Attribute, AttributeValue, Diff, Element, Handler, Node};
