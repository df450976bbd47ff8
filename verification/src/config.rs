//! What a run is asked to do: the query, the file, and the comparison mode.
use vstd::prelude::*;

verus! {

/// How a line is compared with the query.
#[derive(Clone, Copy, Debug, PartialEq, Eq, Structural)]
pub enum ComparisonMode {
    /// Letter for letter.
    CaseSensitive,
    /// By the lowercase forms of both.
    CaseInsensitive,
}

/// What a run is asked to do.
#[derive(Debug)]
pub struct Config {
    /// The text to search for.
    pub query: String,
    /// The name of the file to search in.
    pub filename: String,
    /// Whether letter case is respected.
    pub case_sensitive: bool,
}

/// The error of an argument list that holds no query.
pub const MISSING_QUERY: &'static str = "No query string was found in the inputs";

/// The error of an argument list that holds a query and no file name.
pub const MISSING_FILENAME: &'static str = "No file name was found in the inputs";

impl Config {
    /// Reads a configuration from the arguments of the program and from the
    /// variable that asks for a search without letter case.
    ///
    /// The first argument is the program's name. The second is the query and
    /// the third the file name; further arguments are ignored. The search
    /// ignores letter case when the variable is set, whatever its value.
    pub fn new(args: &[String], case_insensitive: Option<&str>) -> (outcome: Result<
        Config,
        &'static str,
    >)
        ensures
            args@.len() < 2 ==> outcome is Err && outcome->Err_0@ == MISSING_QUERY@,
            args@.len() == 2 ==> outcome is Err && outcome->Err_0@ == MISSING_FILENAME@,
            args@.len() > 2 ==> outcome is Ok && outcome->Ok_0.query@ == args@[1]@
                && outcome->Ok_0.filename@ == args@[2]@ && outcome->Ok_0.case_sensitive
                == (case_insensitive is None),
    {
        if args.len() < 2 {
            return Err(MISSING_QUERY);
        }
        if args.len() < 3 {
            return Err(MISSING_FILENAME);
        }
        Ok(
            Config {
                query: args[1].clone(),
                filename: args[2].clone(),
                case_sensitive: case_insensitive.is_none(),
            },
        )
    }

    /// The comparison mode that the configuration asks for.
    pub open spec fn spec_mode(&self) -> ComparisonMode {
        if self.case_sensitive {
            ComparisonMode::CaseSensitive
        } else {
            ComparisonMode::CaseInsensitive
        }
    }

    /// The comparison mode that the configuration asks for.
    #[verifier::when_used_as_spec(spec_mode)]
    pub fn mode(&self) -> (mode: ComparisonMode)
        ensures
            mode == self.spec_mode(),
    {
        if self.case_sensitive {
            ComparisonMode::CaseSensitive
        } else {
            ComparisonMode::CaseInsensitive
        }
    }
}

} // verus!
