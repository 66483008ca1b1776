//! Finds all sets of five five-letter words that together use twenty-five
//! distinct letters of the alphabet.
mod context;
mod dispatch;
mod finder;
mod mask;
mod tokens;

pub use context::Context;
pub use dispatch::{find_all_words, generate_jobs, run_job, Job};
pub use finder::Finder;
pub use mask::word_bits;
pub use tokens::tokenize;
