use neaten::{AppError, AppErrorKind};

#[test]
fn kind_names() {
    assert_eq!(AppErrorKind::Usage.message(), "Usage");
    assert_eq!(AppErrorKind::Functionality.message(), "Functionality");
    assert_eq!(AppErrorKind::Internal.message(), "Internal");
}

#[test]
fn usage_error_text() {
    let e = AppError::new(AppErrorKind::Usage, "Please provide kind");
    assert_eq!(
        e.formatted(None, ""),
        "\u{1b}[1m\u{1b}[31merror:\u{1b}[0m Please provide kind!\n\n\u{1b}[1m\u{1b}[4mUsage:\u{1b}[0m \u{1b}[1mneaten\u{1b}[0m [OPTIONS]\n\nFor more information, try '\u{1b}[1m--help\u{1b}[0m'.\n"
    );
}

#[test]
fn functional_error_text() {
    let e = AppError::new(AppErrorKind::Functionality, "No such file");
    assert_eq!(
        e.formatted(None, ""),
        "\n\u{1b}[1m\u{1b}[31merror:\u{1b}[0m No such file!\n"
    );
}

#[test]
fn internal_error_text() {
    let e = AppError::new(AppErrorKind::Internal, "broken");
    let head = "\u{1b}[1m\u{1b}[31merror:\u{1b}[0m broken!\n\n\u{1b}[1mneaten: 0.1.0\u{1b}[0m\n\n";
    let hint = "This is an internal error.\nYou can capture callstack to send us by setting environment variable \u{1b}[4mRUST_LIB_BACKTRACE\u{1b}[0m before re-run neaten.\nOr\nOpen an issue including the error on \u{1b}[4m/issues/new\n";
    assert_eq!(e.formatted(None, "trace"), format!("{}{}", head, hint));
    assert_eq!(e.formatted(Some("0"), "trace"), format!("{}{}", head, hint));
}

#[test]
fn internal_error_text_with_callstack() {
    let e = AppError::new(AppErrorKind::Internal, "broken");
    let expected = "\u{1b}[1m\u{1b}[31merror:\u{1b}[0m broken!\n\n\u{1b}[1mneaten: 0.1.0\u{1b}[0m\n\nCallstack:\n  0: main\n\nplease open an issue including this log on \u{1b}[4m/issues/new\n";
    assert_eq!(e.formatted(Some("1"), "  0: main"), expected);
    assert_eq!(e.formatted(Some("full"), "  0: main"), expected);
}

#[test]
fn backtrace_setting_values() {
    assert!(neaten::error::is_backtrace_enabled(Some("1")));
    assert!(neaten::error::is_backtrace_enabled(Some("full")));
    assert!(!neaten::error::is_backtrace_enabled(Some("Full")));
    assert!(!neaten::error::is_backtrace_enabled(None));
}

#[test]
fn other_kinds_ignore_callstack() {
    let e = AppError::new(AppErrorKind::Functionality, "x");
    assert_eq!(e.formatted(Some("1"), "trace"), e.formatted(None, ""));
}
