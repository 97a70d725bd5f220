//! Backend logic of a personal media server: a bounded-concurrency download
//! engine, path confinement, and the small parsers and schedulers around it.
pub mod files;
pub mod download;
mod ids;
pub mod seqs;
pub mod download_proofs;
pub mod text;
pub mod dvbc;
pub mod process;
pub mod twitch;
pub mod scan;
pub mod preview;
pub mod cache;
