pub mod row_split;
pub mod text;
pub mod util;
pub mod to;
pub mod number;
pub mod column;
pub mod column_type;
pub mod chunk_reader;
pub mod expr;
pub mod filename;
pub mod progress;
pub mod return_result;
pub mod re;
pub mod filter;
pub mod writer;
pub mod ordering;
pub mod sort;
pub mod column_stats;
pub mod file;
