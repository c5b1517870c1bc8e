//! Turns the text dump of a database query in vertical format — blocks
//! of `key: value` lines, each block opened by a `*** N. row ***`
//! marker — into CSV: records are accumulated from the lines, a column
//! header is derived from the first record, and every record is
//! serialized against that header, with commas neutralized and missing
//! fields written as a single-space placeholder.

pub mod accumulate;
pub mod chars;
pub mod csvout;
pub mod header;
pub mod parse;
pub mod record;
pub mod split;

use vstd::prelude::*;

verus! {

/// The two file paths the tool works with: where to read the text dump
/// and where to write the CSV output.
pub struct Arguments {
    pub input: String,
    pub output: String,
}

impl Arguments {
    /// Builds `Arguments` from the raw argument vector (program name first).
    /// Exactly two arguments after the program name are accepted.
    pub fn new(args: &[String]) -> (r: Result<Arguments, &'static str>)
        ensures
            args@.len() == 3 ==> (r matches Ok(a)
                && a.input@ == args@[1]@
                && a.output@ == args@[2]@),
            args@.len() != 3 ==> (r matches Err(e) && e@ == "Wrong arguments"@),
    {
        let length = args.len();
        if length >= 4 || length <= 2 {
            Err("Wrong arguments")
        } else {
            Ok(Arguments { input: args[1].clone(), output: args[2].clone() })
        }
    }
}

} // verus!
