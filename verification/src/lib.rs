//! A tiny single-file relational database engine: an on-disk B+ tree keyed by
//! a 32-bit unsigned integer, storing fixed-layout records of the one schema
//! `(id, username, email)`.
//!
//! The storage engine, leaves first:
//!
//! - [`row`]: the record and its fixed-width codec
//! - [`page`]: the 4096-byte page, read as a leaf or as an internal node
//! - [`pager`]: a bounded cache of pages over the bytes of the backing file
//! - [`cursor`]: a position over the leaves; inserts into a leaf and splits it
//! - [`table`]: the tree over a pager: open, insert, select, close
//! - [`tree`], [`insertion`]: what a well-formed tree is and holds, and what
//!   an insert makes of it
//!
//! Around it, the commands of a session: [`input_buffer`], [`statement`],
//! [`meta_command`], which answer with a [`reply`]. Nothing in this crate
//! reads or writes a file or a stream: a table is opened over the bytes of a
//! file, and `close` leaves the bytes to write back in the pager.

pub mod bytes;
pub mod chunks;
pub mod cursor;
pub mod error;
pub mod input_buffer;
pub mod insertion;
pub mod meta_command;
pub mod page;
pub mod pager;
pub mod reply;
pub mod row;
pub mod statement;
pub mod table;
pub mod text;
pub mod tree;
