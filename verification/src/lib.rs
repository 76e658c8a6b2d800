//! Routing registry of a clustered search gateway: per-client sessions,
//! trace-to-querier assignments with a querier-to-traces reverse index,
//! cookie-based validity, idle detection, and cooperative drain signalling,
//! together with the directory-authentication helpers around it.

pub mod ldap;
pub mod promql;
pub mod routes;
pub mod session;
pub mod strutil;
pub mod traces;
