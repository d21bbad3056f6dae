use crate::config::{Config, Kind};
use crate::engine::Engine;
use crate::error::{AppError, AppErrorKind};
use crate::walker::Walker;
use vstd::prelude::*;
use vstd::string::StrSliceExecFns;

verus! {

// The messages of the usage errors that validation gives.
pub const CONFIG_MISSING: &'static str = "config file doesn't exists";

pub const CONFIG_NOT_JSON: &'static str = "config file is not a JSON file, please provide a JSON file";

pub const NO_DESTINATION: &'static str = "Please provide destination";

pub const NO_KIND: &'static str = "Please provide kind";

pub const NO_PATTERNS: &'static str = "Please provide patterns";

pub const DESTINATION_MISSING: &'static str = "destination doesn't exists";

pub const DESTINATION_NOT_DIRECTORY: &'static str = "destination is not a directory, please provide directory path as destination!";

pub const DESTINATION_RELATIVE: &'static str = "destination is not an absolute path, please resolve it first";

pub const EMPTY_PATTERNS: &'static str = "patterns are empty, please provide at least one pattern";

/// What the file system says of a path: nothing there, a directory, or
/// something else.
#[derive(Clone, Copy, Debug, PartialEq, Eq, Structural)]
pub enum PathStatus {
    Missing,
    Directory,
    NotDirectory,
}

/// `c` is the letter `l` in either case.
pub open spec fn is_letter(c: char, l: char) -> bool {
    c == l || c as u32 + 32 == l as u32
}

/// The path ends in the extension `.json`, in any case.
pub open spec fn is_json_path(p: Seq<char>) -> bool {
    let n = p.len() as int;
    &&& n >= 5
    &&& p[n - 5] == '.'
    &&& is_letter(p[n - 4], 'j')
    &&& is_letter(p[n - 3], 's')
    &&& is_letter(p[n - 2], 'o')
    &&& is_letter(p[n - 1], 'n')
}

/// The usage error with the message `m`.
pub open spec fn usage_error(e: AppError, m: &str) -> bool {
    e.kind == AppErrorKind::Usage && e.message@ == m@
}

/// The path is absolute: it starts at the root.
pub open spec fn is_absolute_path(p: Seq<char>) -> bool {
    p.len() > 0 && p[0] == '/'
}

/// Every rule has an absolute destination and at least one pattern.
pub open spec fn valid_rules(configs: Seq<Config>) -> bool {
    forall|i: int| 0 <= i < configs.len()
        ==> is_absolute_path(#[trigger] configs[i].destination@) && configs[i].patterns@.len() > 0
}

/// What is wrong with a rule whose destination is `destination`, with the
/// given status, and which has `n_patterns` patterns, checked in this order;
/// none if nothing is.
pub open spec fn rule_problem(destination: Seq<char>, status: PathStatus, n_patterns: nat) -> Option<&'static str> {
    if !is_absolute_path(destination) {
        Some(DESTINATION_RELATIVE)
    } else if status == PathStatus::Missing {
        Some(DESTINATION_MISSING)
    } else if status == PathStatus::NotDirectory {
        Some(DESTINATION_NOT_DIRECTORY)
    } else if n_patterns == 0 {
        Some(EMPTY_PATTERNS)
    } else {
        None
    }
}

/// The validated rules of a run, in the order they run, and whether the run
/// only reports.
#[derive(Clone, Debug, PartialEq)]
pub struct Manager {
    pub configs: Vec<Config>,
    pub dryrun: bool,
}

fn letter_is(c: char, l: char) -> (r: bool)
    requires
        'a' <= l <= 'z',
    ensures
        r == is_letter(c, l),
{
    c == l || (c as u32) + 32 == l as u32
}

/// Whether `path` names a JSON file by its extension.
pub fn is_json(path: &str) -> (r: bool)
    ensures
        r == is_json_path(path@),
{
    let n = path.unicode_len();
    if n < 5 {
        return false;
    }
    path.get_char(n - 5) == '.' && letter_is(path.get_char(n - 4), 'j') && letter_is(path.get_char(n - 3), 's')
        && letter_is(path.get_char(n - 2), 'o') && letter_is(path.get_char(n - 1), 'n')
}

/// Whether `path` is absolute.
pub fn is_absolute(path: &str) -> (r: bool)
    ensures
        r == is_absolute_path(path@),
{
    path.unicode_len() > 0 && path.get_char(0) == '/'
}

fn check_rule(destination: &str, status: PathStatus, n_patterns: usize) -> (r: Result<(), AppError>)
    ensures
        r is Ok <==> rule_problem(destination@, status, n_patterns as nat) is None,
        r is Err ==> usage_error(r->Err_0, rule_problem(destination@, status, n_patterns as nat)->0),
{
    if !is_absolute(destination) {
        return Err(AppError::new(AppErrorKind::Usage, DESTINATION_RELATIVE));
    }
    match status {
        PathStatus::Missing => Err(AppError::new(AppErrorKind::Usage, DESTINATION_MISSING)),
        PathStatus::NotDirectory => Err(AppError::new(AppErrorKind::Usage, DESTINATION_NOT_DIRECTORY)),
        PathStatus::Directory => if n_patterns == 0 {
            Err(AppError::new(AppErrorKind::Usage, EMPTY_PATTERNS))
        } else {
            Ok(())
        },
    }
}

impl Default for Manager {
    fn default() -> (r: Manager)
        ensures
            r.configs@.len() == 0,
            !r.dryrun,
    {
        Manager::new()
    }
}

impl Manager {
    /// No rules yet, and not a dry run.
    pub fn new() -> (r: Manager)
        ensures
            r.configs@.len() == 0,
            !r.dryrun,
    {
        Manager { configs: Vec::new(), dryrun: false }
    }

    /// Appends a rule, as it is.
    pub fn add(&mut self, config: Config)
        ensures
            final(self).configs@ == old(self).configs@.push(config),
            final(self).dryrun == old(self).dryrun,
    {
        self.configs.push(config);
    }

    /// Adds the rule given on the command line.
    pub fn format(&mut self, destination: String, kind: Kind, patterns: Vec<String>) -> (r: Result<(), AppError>)
        ensures
            r is Ok,
            final(self).configs@ == old(self).configs@.push(
                Config { destination, kind, patterns, exclude: None },
            ),
            final(self).dryrun == old(self).dryrun,
    {
        self.add(Config { destination, kind, patterns, exclude: None });
        Ok(())
    }

    /// Checks what the command line asks for, before anything is removed.
    ///
    /// `status` is what the file system says of the configuration file where
    /// one is given, else of the destination. With a configuration file the
    /// result is `Ok(Some(path))` and no rules are held: the file is to be
    /// read and its rules handed to `load`. With a rule on the command line,
    /// the rule is checked and becomes the one rule held, and the result is
    /// `Ok(None)`. The first failing check decides the error; a failure
    /// leaves the rules as they were. Whatever was held before, after `Ok`
    /// every rule held is valid.
    pub fn validate(&mut self, engine: Engine, status: PathStatus) -> (r: Result<Option<String>, AppError>)
        ensures
            final(self).dryrun == engine.dryrun,
            r is Err ==> final(self).configs@ == old(self).configs@,
            r is Ok ==> valid_rules(final(self).configs@),
            engine.config is Some ==> {
                let path = engine.config->0;
                &&& r is Ok ==> final(self).configs@.len() == 0
                &&& status == PathStatus::Missing ==> r is Err && usage_error(r->Err_0, CONFIG_MISSING)
                &&& status != PathStatus::Missing && !is_json_path(path@) ==> r is Err && usage_error(r->Err_0, CONFIG_NOT_JSON)
                &&& status != PathStatus::Missing && is_json_path(path@) ==> r == Ok::<Option<String>, AppError>(Some(path))
            },
            engine.config is None ==> {
                &&& engine.destination is None ==> r is Err && usage_error(r->Err_0, NO_DESTINATION)
                &&& engine.destination is Some && engine.kind is None ==> r is Err && usage_error(r->Err_0, NO_KIND)
                &&& engine.destination is Some && engine.kind is Some && engine.patterns is None
                    ==> r is Err && usage_error(r->Err_0, NO_PATTERNS)
                &&& engine.destination is Some && engine.kind is Some && engine.patterns is Some ==> {
                    let problem = rule_problem(engine.destination->0@, status, engine.patterns->0@.len());
                    &&& problem is Some ==> r is Err && usage_error(r->Err_0, problem->0)
                    &&& problem is None ==> r == Ok::<Option<String>, AppError>(None)
                        && final(self).configs@ == seq![Config {
                            destination: engine.destination->0,
                            kind: engine.kind->0,
                            patterns: engine.patterns->0,
                            exclude: None,
                        }]
                }
            },
    {
        self.dryrun = engine.dryrun;
        match engine.config {
            Some(path) => {
                if status == PathStatus::Missing {
                    return Err(AppError::new(AppErrorKind::Usage, CONFIG_MISSING));
                }
                if !is_json(path.as_str()) {
                    return Err(AppError::new(AppErrorKind::Usage, CONFIG_NOT_JSON));
                }
                self.configs = Vec::new();
                Ok(Some(path))
            },
            None => {
                let destination = match engine.destination {
                    Some(d) => d,
                    None => {
                        return Err(AppError::new(AppErrorKind::Usage, NO_DESTINATION));
                    },
                };
                let kind = match engine.kind {
                    Some(k) => k,
                    None => {
                        return Err(AppError::new(AppErrorKind::Usage, NO_KIND));
                    },
                };
                let patterns = match engine.patterns {
                    Some(p) => p,
                    None => {
                        return Err(AppError::new(AppErrorKind::Usage, NO_PATTERNS));
                    },
                };
                check_rule(destination.as_str(), status, patterns.len())?;
                let mut rules: Vec<Config> = Vec::new();
                rules.push(Config { destination, kind, patterns, exclude: None });
                self.configs = rules;
                assert(self.configs@ =~= seq![self.configs@[0]]);
                Ok(None)
            },
        }
    }

    /// Takes the rules read from a configuration file, `statuses[i]` being
    /// what the file system says of the destination of `rules[i]`. Each rule
    /// is checked as a rule of the command line is; the first that fails
    /// decides the error and leaves the rules as they were. Otherwise the
    /// rules are those read, in their order.
    pub fn load(&mut self, rules: Vec<Config>, statuses: &Vec<PathStatus>) -> (r: Result<(), AppError>)
        requires
            rules@.len() == statuses@.len(),
        ensures
            final(self).dryrun == old(self).dryrun,
            r is Ok <==> forall|i: int| 0 <= i < rules@.len()
                ==> rule_problem(rules@[i].destination@, #[trigger] statuses@[i], rules@[i].patterns@.len()) is None,
            r is Ok ==> final(self).configs@ == rules@,
            r is Ok ==> valid_rules(final(self).configs@),
            r is Ok ==> forall|i: int| 0 <= i < statuses@.len() ==> #[trigger] statuses@[i] == PathStatus::Directory,
            r is Err ==> final(self).configs@ == old(self).configs@ && exists|i: int| 0 <= i < rules@.len()
                && usage_error(r->Err_0, rule_problem(rules@[i].destination@, #[trigger] statuses@[i], rules@[i].patterns@.len())->0)
                && forall|j: int| 0 <= j < i ==> rule_problem(rules@[j].destination@, #[trigger] statuses@[j], rules@[j].patterns@.len()) is None,
    {
        let mut i: usize = 0;
        while i < rules.len()
            invariant
                i <= rules@.len() == statuses@.len(),
                forall|j: int| 0 <= j < i ==> rule_problem(rules@[j].destination@, #[trigger] statuses@[j], rules@[j].patterns@.len()) is None,
            decreases rules@.len() - i,
        {
            match check_rule(rules[i].destination.as_str(), statuses[i], rules[i].patterns.len()) {
                Ok(()) => {},
                Err(e) => {
                    return Err(e);
                },
            }
            i = i + 1;
        }
        assert forall|k: int| 0 <= k < rules@.len() implies is_absolute_path(#[trigger] rules@[k].destination@)
            && rules@[k].patterns@.len() > 0 by {
            assert(rule_problem(rules@[k].destination@, statuses@[k], rules@[k].patterns@.len()) is None);
        }
        self.configs = rules;
        Ok(())
    }

    /// Starts the run: one walk per rule, in the order of the rules, each
    /// from its destination and with the run's dry-run setting.
    pub fn execute(&self) -> (r: Vec<Walker>)
        ensures
            r@.len() == self.configs@.len(),
            forall|i: int| 0 <= i < r@.len() ==> {
                &&& (#[trigger] r@[i]).kind == self.configs@[i].kind
                &&& r@[i].patterns@ == self.configs@[i].patterns@
                &&& r@[i].dryrun == self.dryrun
                &&& r@[i].pending@.len() == 1
                &&& r@[i].pending@[0]@ == self.configs@[i].destination@
            },
    {
        let mut r: Vec<Walker> = Vec::new();
        let mut i: usize = 0;
        while i < self.configs.len()
            invariant
                i <= self.configs@.len(),
                r@.len() == i,
                forall|k: int| 0 <= k < i ==> {
                    &&& (#[trigger] r@[k]).kind == self.configs@[k].kind
                    &&& r@[k].patterns@ == self.configs@[k].patterns@
                    &&& r@[k].dryrun == self.dryrun
                    &&& r@[k].pending@.len() == 1
                    &&& r@[k].pending@[0]@ == self.configs@[k].destination@
                },
            decreases self.configs@.len() - i,
        {
            let w = Walker::new(&self.configs[i], self.dryrun);
            proof {
                assert(crate::config::strings_view(w.pending@).len() == w.pending@.len());
                assert(crate::config::strings_view(w.pending@)[0] == w.pending@[0]@);
            }
            r.push(w);
            i = i + 1;
        }
        r
    }
}

} // verus!
