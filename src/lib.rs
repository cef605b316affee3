//! Admission and prioritisation core of a transaction quality-of-service
//! stage: a fixed-capacity LRU, a bounded min-max heap, a reputation model
//! over (source address, fee payer), and the per-packet pipeline rules.
pub mod lru;
pub mod minmax;
pub mod packet;
pub mod fee;
pub mod pipeline;
pub mod banking;
pub mod model;
pub mod view;
