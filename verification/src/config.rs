//! What one run of the search is asked to do, and the run itself.

use vstd::prelude::*;
use crate::finder::{matching_lines, search_with, CaseSensitivity};

verus! {

/// The settings of one run.
pub struct Config {
    /// The text to look for.
    pub query: String,
    /// The name of the file whose lines are searched.
    pub filename: String,
    /// Whether letter case counts.
    pub case_sensitive: bool,
}

/// The settings of one run, as mathematical values.
pub struct ConfigView {
    pub query: Seq<char>,
    pub filename: Seq<char>,
    pub case_sensitive: bool,
}

impl View for Config {
    type V = ConfigView;

    open spec fn view(&self) -> ConfigView {
        ConfigView {
            query: self.query@,
            filename: self.filename@,
            case_sensitive: self.case_sensitive,
        }
    }
}

impl ConfigView {
    /// The mode of comparison that the settings ask for.
    pub open spec fn mode(self) -> CaseSensitivity {
        if self.case_sensitive {
            CaseSensitivity::Sensitive
        } else {
            CaseSensitivity::Insensitive
        }
    }
}

impl Config {
    /// Builds the settings from the words of a command line and the value of
    /// the switch that turns case-insensitive search on.
    ///
    /// The first word is the name of the program and is passed over; the
    /// second is the query, the third the name of the file, and further words
    /// are not read. The search is case-sensitive unless the switch is set,
    /// whatever it is set to.
    pub fn new(args: &[String], case_insensitive: Option<&str>) -> (made: Result<
        Config,
        &'static str,
    >)
        ensures
            args@.len() < 2 ==> (made matches Err(why) && why@
                == "missing query string argument"@),
            args@.len() == 2 ==> (made matches Err(why) && why@ == "missing filename argument"@),
            args@.len() > 2 ==> (made matches Ok(config) && config@ == (ConfigView {
                query: args@[1]@,
                filename: args@[2]@,
                case_sensitive: case_insensitive is None,
            })),
    {
        if args.len() < 2 {
            return Err("missing query string argument");
        }
        if args.len() < 3 {
            return Err("missing filename argument");
        }
        Ok(
            Config {
                query: args[1].clone(),
                filename: args[2].clone(),
                case_sensitive: case_insensitive.is_none(),
            },
        )
    }

    /// The mode of comparison that the settings ask for.
    pub fn mode(&self) -> (mode: CaseSensitivity)
        ensures
            mode == self@.mode(),
    {
        if self.case_sensitive {
            CaseSensitivity::Sensitive
        } else {
            CaseSensitivity::Insensitive
        }
    }
}

/// Runs the search that `config` asks for on `contents`, the text of the file
/// that it names, and returns the lines to print, in order.
pub fn run<'a>(config: Config, contents: &'a str) -> (found: Vec<&'a str>)
    ensures
        found.deep_view() == matching_lines(config.query@, contents@, config@.mode()),
{
    search_with(config.query.as_str(), contents, config.mode())
}

} // verus!
