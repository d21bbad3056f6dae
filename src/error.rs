use vstd::prelude::*;
use vstd::string::{StrSliceExecFns, StringExecFns};

verus! {

/// The name that messages give the program.
pub const PACKAGE_NAME: &'static str = "neaten";

/// The version that messages give.
pub const PACKAGE_VERSION: &'static str = "0.1.0";

/// The address of the project's repository, where issues are opened. The
/// package declares none, so it is empty.
pub const PACKAGE_REPOSITORY: &'static str = "";

/// The three kinds of failure: a wrong invocation or configuration, a
/// failure while working (reading, decoding), and a fault of the program.
#[derive(Clone, Copy, Debug, PartialEq, Eq, Structural)]
pub enum AppErrorKind {
    Usage,
    Functionality,
    Internal,
}

/// A failure, with its kind and a message for the user.
#[derive(Clone, Debug, PartialEq)]
pub struct AppError {
    pub kind: AppErrorKind,
    pub message: String,
}

/// The first line of every formatted error: a bold red `error:` and the message.
pub open spec fn error_line(message: Seq<char>) -> Seq<char> {
    "\u{1b}[1m\u{1b}[31merror:\u{1b}[0m "@ + message + "!\n"@
}

/// The value of `RUST_LIB_BACKTRACE`, where set, asks for a callstack.
pub open spec fn backtrace_enabled(setting: Option<Seq<char>>) -> bool {
    setting == Some("1"@) || setting == Some("full"@)
}

/// The characters of an optional string slice.
pub open spec fn setting_view(setting: Option<&str>) -> Option<Seq<char>> {
    match setting {
        Some(s) => Some(s@),
        None => None,
    }
}

/// The text shown for an internal error: with the callstack `backtrace`
/// where one was asked for, else with how to ask for one.
pub open spec fn internal_text(message: Seq<char>, enabled: bool, backtrace: Seq<char>) -> Seq<char> {
    let head = error_line(message) + "\n\u{1b}[1m"@ + PACKAGE_NAME@ + ": "@ + PACKAGE_VERSION@ + "\u{1b}[0m\n\n"@;
    if enabled {
        head + "Callstack:\n"@ + backtrace + "\n\nplease open an issue including this log on \u{1b}[4m"@
            + PACKAGE_REPOSITORY@ + "/issues/new\n"@
    } else {
        head + "This is an internal error.\n"@
            + "You can capture callstack to send us by setting environment variable \u{1b}[4mRUST_LIB_BACKTRACE\u{1b}[0m before re-run "@
            + PACKAGE_NAME@ + ".\n"@ + "Or\n"@ + "Open an issue including the error on \u{1b}[4m"@ + PACKAGE_REPOSITORY@
            + "/issues/new\n"@
    }
}

/// The text shown for an error of each kind; `enabled` and `backtrace`
/// matter to internal errors only.
pub open spec fn formatted_text(kind: AppErrorKind, message: Seq<char>, enabled: bool, backtrace: Seq<char>) -> Seq<char> {
    match kind {
        AppErrorKind::Usage => error_line(message) + "\n\u{1b}[1m\u{1b}[4mUsage:\u{1b}[0m \u{1b}[1m"@ + PACKAGE_NAME@
            + "\u{1b}[0m [OPTIONS]\n\nFor more information, try '\u{1b}[1m--help\u{1b}[0m'.\n"@,
        AppErrorKind::Functionality => "\n"@ + error_line(message),
        AppErrorKind::Internal => internal_text(message, enabled, backtrace),
    }
}

/// Whether two strings hold the same characters.
pub fn same_text(a: &str, b: &str) -> (r: bool)
    ensures
        r == (a@ == b@),
{
    let n = a.unicode_len();
    if n != b.unicode_len() {
        return false;
    }
    let mut i: usize = 0;
    while i < n
        invariant
            n == a@.len() == b@.len(),
            i <= n,
            forall|j: int| 0 <= j < i ==> a@[j] == b@[j],
        decreases n - i,
    {
        if a.get_char(i) != b.get_char(i) {
            return false;
        }
        i = i + 1;
    }
    assert(a@ =~= b@);
    true
}

/// Whether the value of `RUST_LIB_BACKTRACE`, where set, asks for a callstack.
pub fn is_backtrace_enabled(setting: Option<&str>) -> (r: bool)
    ensures
        r == backtrace_enabled(setting_view(setting)),
{
    match setting {
        Some(v) => same_text(v, "1") || same_text(v, "full"),
        None => false,
    }
}

impl AppErrorKind {
    /// The name of the kind.
    pub fn message(&self) -> (r: &str)
        ensures
            *self == AppErrorKind::Usage ==> r@ == "Usage"@,
            *self == AppErrorKind::Functionality ==> r@ == "Functionality"@,
            *self == AppErrorKind::Internal ==> r@ == "Internal"@,
    {
        match self {
            AppErrorKind::Usage => "Usage",
            AppErrorKind::Functionality => "Functionality",
            AppErrorKind::Internal => "Internal",
        }
    }
}

impl AppError {
    /// An error of the given kind with an owned copy of the message.
    pub fn new(kind: AppErrorKind, message: &str) -> (r: AppError)
        ensures
            r.kind == kind,
            r.message@ == message@,
    {
        AppError { kind, message: String::from_str(message) }
    }

    /// The text shown to the user for this error. For an internal error,
    /// `backtrace_setting` is the value of `RUST_LIB_BACKTRACE` where it is
    /// set, and `backtrace` the callstack shown where that value asks for it.
    pub fn formatted(&self, backtrace_setting: Option<&str>, backtrace: &str) -> (r: String)
        ensures
            r@ == formatted_text(self.kind, self.message@, backtrace_enabled(setting_view(backtrace_setting)), backtrace@),
    {
        match self.kind {
            AppErrorKind::Usage => self.formatted_usage(),
            AppErrorKind::Functionality => self.formatted_functional(),
            AppErrorKind::Internal => self.formatted_internal(is_backtrace_enabled(backtrace_setting), backtrace),
        }
    }

    fn error_line(&self) -> (r: String)
        ensures
            r@ == error_line(self.message@),
    {
        let mut r = String::from_str("\u{1b}[1m\u{1b}[31merror:\u{1b}[0m ");
        r.append(self.message.as_str());
        r.append("!\n");
        r
    }

    fn formatted_usage(&self) -> (r: String)
        ensures
            r@ == formatted_text(AppErrorKind::Usage, self.message@, false, Seq::empty()),
    {
        let mut r = self.error_line();
        r.append("\n\u{1b}[1m\u{1b}[4mUsage:\u{1b}[0m \u{1b}[1m");
        r.append(PACKAGE_NAME);
        r.append("\u{1b}[0m [OPTIONS]\n\nFor more information, try '\u{1b}[1m--help\u{1b}[0m'.\n");
        r
    }

    fn formatted_functional(&self) -> (r: String)
        ensures
            r@ == formatted_text(AppErrorKind::Functionality, self.message@, false, Seq::empty()),
    {
        let mut r = String::from_str("\n");
        let line = self.error_line();
        r.append(line.as_str());
        r
    }

    fn formatted_internal(&self, enabled: bool, backtrace: &str) -> (r: String)
        ensures
            r@ == internal_text(self.message@, enabled, backtrace@),
    {
        let mut r = self.error_line();
        r.append("\n\u{1b}[1m");
        r.append(PACKAGE_NAME);
        r.append(": ");
        r.append(PACKAGE_VERSION);
        r.append("\u{1b}[0m\n\n");
        if enabled {
            r.append("Callstack:\n");
            r.append(backtrace);
            r.append("\n\nplease open an issue including this log on \u{1b}[4m");
            r.append(PACKAGE_REPOSITORY);
            r.append("/issues/new\n");
        } else {
            r.append("This is an internal error.\n");
            r.append("You can capture callstack to send us by setting environment variable \u{1b}[4mRUST_LIB_BACKTRACE\u{1b}[0m before re-run ");
            r.append(PACKAGE_NAME);
            r.append(".\n");
            r.append("Or\n");
            r.append("Open an issue including the error on \u{1b}[4m");
            r.append(PACKAGE_REPOSITORY);
            r.append("/issues/new\n");
        }
        r
    }
}

} // verus!
