//! Routing core of a WAMP-style RPC broker: a registry of procedure
//! patterns, a table of in-flight calls, and the four protocol operations
//! (register, unregister, call, yield) that drive them.

pub mod uri;
pub mod registry;
pub mod calls;
pub mod handler;
pub mod laws;

pub use uri::{Uri, same_uri, is_prefix_match, is_wildcard_match};
pub use registry::{MatchingPolicy, InvocationPolicy, Reason, Registration, Registry};
pub use calls::{ActiveCall, CallTable};
pub use handler::{
    ErrorType, RouterError, RegisterOptions, Reply, Invocation, CallResult, Realm,
    ConnectionHandler,
};
