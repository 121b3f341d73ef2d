pub mod asn;
pub mod directory;
pub mod heap;
pub mod ranking;
