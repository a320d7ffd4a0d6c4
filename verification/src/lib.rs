//! Core logic of a service-mesh sidecar's control-plane integration: DNS-style
//! name validation and suffix matching, decoding of discovery wire messages,
//! the delta cache that flattens set-oriented endpoint updates into keyed
//! single-endpoint updates, the subscription reconnect policy, the discover
//! adapter that turns endpoint updates plus asynchronous child-service builds
//! into a keyed change stream, and the tap listener's authorization rule.

pub mod cache;
pub mod discover;
pub mod dns;
pub mod indexed;
pub mod metadata;
pub mod net;
pub mod resolution;
pub mod tap;
