//! Cursor types used by ranked queries: a frontier cursor ordered by the
//! aggregate bound, and a result cursor ordered by the word score.

pub mod output_wrapper;
pub mod queue_wrapper;
