//! Block-proposal engine of a DAG-based BFT mempool: round advancement,
//! leader and vote tracking, and an adversarial strategy layer.
pub mod attacks;
pub mod bytes;
pub mod committee;
pub mod messages;
pub mod proposer;
