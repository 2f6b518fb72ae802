use vstd::prelude::*;
use crate::lines::lines;
use crate::find::{
    lower_of, search, search_case_insensitive, select_containing, select_folded, views,
};

verus! {

/// What one run searches for, where, and whether case counts.
pub struct Config {
    pub query: String,
    pub file_path: String,
    pub ignore_case: bool,
}

impl Config {
    /// Builds the configuration from the program's arguments (the first one,
    /// the program's name, is skipped; arguments after the file path are
    /// ignored) and from whether the case toggle is set in the environment.
    pub fn build(args: Vec<String>, ignore_case: bool) -> (r: Result<Config, &'static str>)
        ensures
            args.len() < 2 ==> r is Err && r->Err_0@ == "Didn't get a query string"@,
            args.len() == 2 ==> r is Err && r->Err_0@ == "Didn't get a file path"@,
            args.len() >= 3 ==> r is Ok && r->Ok_0.query@ == args[1]@ && r->Ok_0.file_path@
                == args[2]@ && r->Ok_0.ignore_case == ignore_case,
    {
        if args.len() < 2 {
            return Err("Didn't get a query string");
        }
        if args.len() < 3 {
            return Err("Didn't get a file path");
        }
        let query = args[1].clone();
        let file_path = args[2].clone();
        Ok(Config { query, file_path, ignore_case })
    }
}

/// The lines of `contents` that the configured search returns: the
/// case-insensitive search when the case toggle was set, else the
/// case-sensitive one.
pub fn matching_lines<'a>(config: &Config, contents: &'a str) -> (r: Vec<&'a str>)
    ensures
        config.ignore_case ==> views(r@) == select_folded(
            lines(contents@),
            lower_of(config.query@),
        ),
        !config.ignore_case ==> views(r@) == select_containing(lines(contents@), config.query@),
{
    if config.ignore_case {
        search_case_insensitive(config.query.as_str(), contents)
    } else {
        search(config.query.as_str(), contents)
    }
}

} // verus!
