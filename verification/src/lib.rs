//! Verified ownership, scheduling and admission decisions of a direct Kafka
//! cluster reactor: stable lane identities, broker families, seed replacement,
//! cursor-fair endpoint refresh and SASL failure classification.

pub mod nonzero;
pub mod traffic;
pub mod identity;
pub mod bounds;
pub mod error;
pub mod endpoint;
pub mod authentication;
pub mod lane;
pub mod admission;
pub mod connect;
pub mod observation;
pub mod simulated;
pub mod family;
pub mod runtime;
