//! The integrity audit of the write-ahead log: the log's record format and
//! the verdict on each record. Mapping the file and recomputing chained
//! hashes happen outside this library.

pub mod scanner;
