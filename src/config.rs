use vstd::prelude::*;
use vstd::string::StringExecFns;

verus! {

/// What a rule removes: folders matched by name, or files matched by extension.
#[derive(Clone, Copy, Debug, PartialEq, Eq, Structural)]
pub enum Kind {
    Folder,
    File,
}

impl Default for Kind {
    fn default() -> (r: Kind)
        ensures
            r == Kind::Folder,
    {
        Kind::Folder
    }
}

/// The characters of each string of a sequence.
pub open spec fn strings_view(v: Seq<String>) -> Seq<Seq<char>> {
    v.map_values(|s: String| s@)
}

/// The characters of each string slice of a sequence.
pub open spec fn strs_view(v: Seq<&str>) -> Seq<Seq<char>> {
    v.map_values(|s: &str| s@)
}

/// One cleanup rule: where to start, what kind of item to remove, and the
/// patterns that select items. `exclude` is read from configuration files
/// but not consulted when matching.
#[derive(Clone, Debug, PartialEq)]
pub struct Config {
    pub destination: String,
    pub kind: Kind,
    pub patterns: Vec<String>,
    pub exclude: Option<Vec<String>>,
}

/// Owned copies of a list of string slices.
pub fn to_strings(v: &Vec<&str>) -> (r: Vec<String>)
    ensures
        strings_view(r@) == strs_view(v@),
{
    let mut r: Vec<String> = Vec::new();
    let mut i: usize = 0;
    while i < v.len()
        invariant
            i <= v@.len(),
            r@.len() == i,
            forall|j: int| 0 <= j < i ==> #[trigger] r@[j]@ == v@[j]@,
        decreases v@.len() - i,
    {
        let s = String::from_str(v[i]);
        r.push(s);
        i = i + 1;
    }
    assert(strings_view(r@) =~= strs_view(v@));
    r
}

impl Config {
    /// A rule with owned copies of the given destination and patterns.
    pub fn new(destination: &str, kind: Kind, patterns: Vec<&str>, exclude: Option<Vec<&str>>) -> (r: Config)
        ensures
            r.destination@ == destination@,
            r.kind == kind,
            strings_view(r.patterns@) == strs_view(patterns@),
            exclude is None ==> r.exclude is None,
            exclude is Some ==> (r.exclude is Some && strings_view(r.exclude->0@) == strs_view(exclude->0@)),
    {
        let exclude = match exclude {
            Some(e) => Some(to_strings(&e)),
            None => None,
        };
        Config {
            destination: String::from_str(destination),
            kind,
            patterns: to_strings(&patterns),
            exclude,
        }
    }
}

} // verus!
