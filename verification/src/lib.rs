//! A compact keyword index over documents with fuzzy search: documents are
//! reduced to keywords, the keywords are kept in a finite-state map, and the
//! documents' text is kept FSST-compressed.
pub mod strvec;
pub mod text;
pub mod order;
pub mod fstmap;
pub mod index;
pub mod search;
pub mod keywords;
pub mod builder;
pub mod stopwords;

pub use strvec::FsstStrVec;
pub use index::{Document, Index, IndexError};
pub use keywords::IndexConfig;
pub use builder::{build_index, build_index_with_config, build_index_with_stop_words, BuildError};
pub use search::{search, SearchError};
