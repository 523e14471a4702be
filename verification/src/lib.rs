//! A posting index over an ordered key-value store: document postings with term frequencies and
//! positions, kept as compressed blocks, and iterators over them.
pub mod append;
pub mod append_law;
pub mod batching;
pub mod block;
pub mod buffer;
pub mod bytes;
pub mod features;
pub mod field;
pub mod format_law;
pub mod ingest;
pub mod ingest_law;
pub mod iter;
pub mod iter_law;
pub mod positions;
pub mod posting_law;
pub mod reader;
pub mod stats;
pub mod store;
pub mod stored_list;
pub mod token_append;
pub mod token_map;
pub mod tokenizer;
pub mod varint;
pub mod words;
pub mod written_out;

pub use buffer::TokenIndexBuffer;
pub use features::TokenFieldFeatures;
pub use field::TokenFieldIndex;
pub use iter::{DocIdSetIterator, PostingIterator, TokenPostingIterator};
pub use positions::PosId;
pub use reader::{BinDocReader, IndexRecord};
pub use stats::{DocId, EncodedTokenStats, TokenStats};
