pub mod dedup;
pub mod filter;
pub mod flatten;
pub mod iterator;
pub mod sink;
pub mod skip;
pub mod take;
pub mod transform;
