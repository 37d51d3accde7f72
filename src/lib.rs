//! A storage adapter that keeps table schemas and rows in one ordered,
//! byte-keyed sled database, and scans them back out table by table.
pub mod backend;
pub mod key;
pub mod laws;
pub mod storage;
