//! What one run of the search is asked to do.

use vstd::prelude::*;

verus! {

/// The error when no query follows the program name.
pub const MISSING_QUERY: &'static str = "Didn't get a query string";

/// The error when no file name follows the query.
pub const MISSING_FILENAME: &'static str = "Didn't get a file name";

/// The query, the file to search, and whether case matters.
#[derive(Debug)]
pub struct Config {
    pub query: String,
    pub filename: String,
    pub case_sensitive: bool,
}

impl Config {
    /// Builds a configuration from the command-line arguments, the first of
    /// which is the program's own name: the query comes next, then the file
    /// name; any further argument is ignored.
    pub fn new(args: Vec<String>, case_sensitive: bool) -> (r: Result<Config, &'static str>)
        ensures
            args@.len() < 2 ==> r == Err::<Config, &'static str>(MISSING_QUERY),
            args@.len() == 2 ==> r == Err::<Config, &'static str>(MISSING_FILENAME),
            args@.len() > 2 ==> (r matches Ok(c) && c.query@ == args@[1]@ && c.filename@
                == args@[2]@ && c.case_sensitive == case_sensitive),
    {
        if args.len() < 2 {
            return Err(MISSING_QUERY);
        }
        let query = args[1].clone();
        if args.len() < 3 {
            return Err(MISSING_FILENAME);
        }
        let filename = args[2].clone();
        Ok(Config { query, filename, case_sensitive })
    }
}

} // verus!
