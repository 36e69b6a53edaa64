//! A disk-resident inverted index: zoned XML tokenizing, bounded in-memory
//! accumulation, front-coded sorted runs and their k-way merge.
pub mod varint;
pub mod bytes;
pub mod chars;
pub mod listmap;
pub mod lexical;
pub mod indexed;
pub mod codec;
pub mod layout;
pub mod run;
pub mod reader;
pub mod rep_reader;
pub mod parser;
pub mod merger;
pub mod list;
