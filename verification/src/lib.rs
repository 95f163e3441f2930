//! Loading GUT data exchange files into relational databases.
//!
//! A table arrives as two files: `TABLE.DATE.TIME.SEQ.flg`, which describes
//! its fixed-width layout, and `TABLE.DATE.TIME.SEQ.dat.gz`, its rows. This
//! library finds the pairs of a directory ([`parser`]), reads both files
//! ([`parser::flg`], [`parser::dat`]), checks them before loading
//! ([`validator`]), groups rows into insert batches and tallies what the
//! database made of them ([`loader`]), writes the statements of each
//! database dialect ([`database`]) and sums it all up in a report
//! ([`report`]). Reading connection settings out of a chat service's reply
//! ([`llm`]), the application log ([`log_buffer`]) and helpers of the
//! command-line tools ([`cli`], [`display`]) complete it.
//!
//! Files, sockets and clocks stay with the caller: the functions here take
//! what was read and give back what to write.
use vstd::prelude::*;

pub mod cli;
pub mod database;
pub mod display;
pub mod llm;
pub mod loader;
pub mod log_buffer;
pub mod models;
pub mod order;
pub mod parser;
pub mod path;
pub mod report;
pub mod text;
pub mod validator;

verus! {

} // verus!
