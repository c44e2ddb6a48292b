//! Assembly of bounded context windows around the matches that a line
//! searcher reports, one file at a time.
pub mod assembler;
pub mod handler;
pub mod laws;
pub mod model;
pub mod record;
pub mod text;

pub use assembler::RgResults;
pub use handler::{NeovimHandler, RgErr};
pub use model::SearchEvent;
pub use record::RgResult;
pub use text::line_text;
