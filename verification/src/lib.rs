//! An embedded database: tables of rows in B+ trees over fixed-size pages, with
//! secondary indexes, transactions, a write-ahead log, per-table encryption and
//! vector collections for nearest-neighbour search.
//!
//! The crate holds the logic and no I/O. A database is opened from page images and
//! log records, hands out the records that are to be made durable, and is written
//! back as page images; a vector collection is opened from the bytes of its file
//! and its log. Floating-point numbers are held as their bits.
//!
//! From the bottom up:
//! - [`bytes`], [`error`], [`value`], [`page`], [`overflow`], [`row`]: numbers,
//!   values, pages and rows as bytes;
//! - [`crypto`], [`file`]: encryption and the pages of a database;
//! - [`tree`]: search trees over pages; [`btree_node`], [`btree`], [`btree_writer`]
//!   and [`btree_bulk`] keep rows in them, [`index`], [`index_node`] and
//!   [`index_tree`] index keys;
//! - [`table`], [`system_page`]: the tables of a database and how they are stored;
//! - [`store`], [`engine`], [`engine_bulk`], [`engine_index`], [`engine_list`]: rows
//!   and indexes kept in step;
//! - [`filter`], [`query`], [`finder`]: filters, sorting and searches;
//! - [`session`], [`transaction`], [`db`], [`db_open`], [`db_rows`], [`names`]: the
//!   database;
//! - [`laws`]: what holds of its operations together; [`value_laws`], [`row_laws`],
//!   [`query_laws`], [`find_laws`], [`change_laws`], [`table_laws`] and [`tree_laws`]: what
//!   they do to values, rows, answers, tables and trees;
//! - [`vector`]: vector collections.

pub mod btree;
pub mod btree_bulk;
pub mod btree_node;
pub mod btree_writer;
pub mod bytes;
pub mod change_laws;
pub mod crypto;
pub mod db;
pub mod db_open;
pub mod db_rows;
pub mod engine;
pub mod engine_bulk;
pub mod engine_index;
pub mod engine_list;
pub mod error;
pub mod file;
pub mod filter;
pub mod find_laws;
pub mod finder;
pub mod index;
pub mod index_node;
pub mod index_tree;
pub mod laws;
pub mod log;
pub mod names;
pub mod overflow;
pub mod page;
pub mod query;
pub mod query_laws;
pub mod room;
pub mod row;
pub mod row_laws;
pub mod session;
pub mod store;
pub mod system_page;
pub mod table;
pub mod table_laws;
pub mod transaction;
pub mod tree;
pub mod tree_laws;
pub mod value;
pub mod value_laws;
pub mod vector;
