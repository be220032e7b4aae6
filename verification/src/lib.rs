//! A small search engine over text: a literal or regular-expression matcher,
//! a per-file line scanner, a file-extension filter, and a collector that
//! merges per-file results into one result set.

pub mod collector;
pub mod errors;
pub mod filter;
pub mod matcher;
pub mod report;
pub mod scanner;
pub mod searcher;
pub mod text;

pub use collector::FileEntry;
pub use errors::{ErrorKind, SearchError};
pub use filter::ExtensionFilter;
pub use matcher::Matcher;
pub use report::highlight_line;
pub use scanner::SearchResult;
pub use searcher::FileSearcher;
