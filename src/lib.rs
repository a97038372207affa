//! An in-memory store of typed tables: records of tagged scalar values, tables
//! that hold them under a fixed or adopted schema, filtering, projection, and a
//! single-key equality join across the tables of a database.

pub mod value;
pub mod record;
pub mod schema;
pub mod compare;
pub mod table;
pub mod db;
