//! Synthetic uptime monitoring and patch-metadata tracking for game servers
//! reached through a forward proxy.
//!
//! The library holds the verified core: classification of proxy CONNECT
//! probe responses, the flap-dampening status cache that debounces raw
//! probe results, the patch-manifest and version-file parsers, and the
//! reconciliation rules that decide when persisted configuration or
//! version must be rewritten. Network and database work lives outside,
//! feeding plain values in and carrying decisions out.

pub mod flap;
pub mod manifest;
pub mod probe;
pub mod reconcile;
pub mod server;
pub mod text;
pub mod version;
