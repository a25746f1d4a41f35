//! Transactional store of contract analysis results, and resolution of the
//! epoch that governs a block height.
pub mod analysis_db;
pub mod codec;
pub mod epoch;
pub mod rollback;
pub mod types;
