//! Wire-format fast path for a caching DNS proxy.
//!
//! The routines here extract just enough from a raw DNS message to derive a
//! cache key (`parse_quick`), decide cacheability and expiry of a response
//! (`parse_response_quick`), and age a cached response's TTLs in place before
//! re-serving it (`patch_all_ttls`). They touch untrusted binary data, so
//! every length and offset read from the packet is validated before use, and
//! compression-pointer traversal is bounded by a fixed jump budget.

pub mod name;
pub mod query;
pub mod response;
pub mod ttl;
pub mod wire;

pub use name::skip_name;
pub use query::parse_quick;
pub use query::QuickQuery;
pub use response::parse_response_quick;
pub use response::QuickResponse;
pub use ttl::patch_all_ttls;
