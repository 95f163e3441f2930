//! Pre-load checks: the layout and consistency of the files of each table.
pub mod disk;
pub mod file;
pub mod positions;
