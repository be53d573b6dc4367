//! Resolution engine for declarative Incus infrastructure documents: turns a
//! desired state (hosts, subnets, flavors, images) into a resolved state with
//! concrete identifiers and addresses, carries forward what an earlier
//! resolved state assigned, and derives the ordered provisioning directives.

pub mod text;
pub mod net;
pub mod schema;
pub mod allocator;
pub mod engine;
pub mod digest;
pub mod clock;
pub mod ops;
pub mod laws;
