//! A transactional store: a write-ahead log, pages of tuples, multi-version
//! rows, named sequences and crash recovery.
pub mod assoc;
pub mod catalog;
pub mod checkpoint;
pub mod clock;
pub mod codec;
pub mod crash;
pub mod db;
pub mod degraded;
pub mod describe;
pub mod durable;
pub mod ending;
pub mod engine;
pub mod error;
pub mod formats;
pub mod framing;
pub mod freelist;
pub mod generator;
pub mod hash;
pub mod header;
pub mod history;
pub mod life;
pub mod maintenance;
pub mod memfile;
pub mod mvcc;
pub mod named_memfile;
pub mod opening;
pub mod operation;
pub mod page;
pub mod pagebytes;
pub mod passes;
pub mod promise;
pub mod recovery;
pub mod rows;
pub mod runner;
pub mod schema;
pub mod segment;
pub mod steps;
pub mod table;
pub mod tables;
pub mod text;
pub mod tuple;
pub mod txn;
pub mod upkeep;
pub mod version;
pub mod wal;
pub mod writes;
