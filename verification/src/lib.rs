//! Verified core of a command line toolkit for CSV, TXT and Excel data:
//! splitting rows, selecting and filtering columns, guessing column types,
//! sorting, de-duplicating and counting rows.
use vstd::prelude::*;

pub mod io;
pub mod utils;
