use crate::config::Kind;
use vstd::prelude::*;

verus! {

/// What the command line asks for: a configuration file, or one rule given
/// by destination, kind and patterns; and whether to only report.
#[derive(Clone, Debug, PartialEq)]
pub struct Engine {
    pub config: Option<String>,
    pub destination: Option<String>,
    pub kind: Option<Kind>,
    pub patterns: Option<Vec<String>>,
    pub dryrun: bool,
}

} // verus!
