//! Tests for build invocation capture.

use elcc::capture::{
    capture_from_trace, normalize_options, parse_running_line, split_tokens, CaptureError,
};
use elcc::scanner::{EnvAssign, ScanError};

fn cv(s: &str) -> Vec<char> {
    s.chars().collect()
}

fn toks(ts: &[&str]) -> Vec<Vec<char>> {
    ts.iter().map(|t| cv(t)).collect()
}

fn assign(key: &str, value: &str) -> EnvAssign {
    EnvAssign { key: cv(key), value: cv(value) }
}

#[test]
fn trace_line_decodes_env_and_tokens() {
    let line = cv("     Running `FOO=1 BAR='a b' /x/y/rustc main.rs --edition=2021`");
    let inv = capture_from_trace(&vec![line]).unwrap();
    assert_eq!(inv.assigns, vec![assign("FOO", "1"), assign("BAR", "a b")]);
    assert_eq!(inv.tokens, toks(&["--edition=2021"]));
}

#[test]
fn running_line_splits_into_three_parts() {
    let line = cv("     Running `FOO=1 BAR='a b' /x/y/rustc main.rs --edition=2021`");
    let parts = parse_running_line(&line).unwrap();
    assert_eq!(parts.env, cv("FOO=1 BAR='a b'"));
    assert_eq!(parts.compiler, cv("/x/y/rustc"));
    assert_eq!(parts.args, cv("main.rs --edition=2021"));
}

#[test]
fn other_lines_are_not_recognized() {
    assert!(parse_running_line(&cv("   Compiling foo v0.1.0")).is_none());
    assert!(parse_running_line(&cv("     Running `cargo something else`")).is_none());
    assert!(parse_running_line(&cv("Running `A=1 /x/rustc main.rs`")).is_none());
}

#[test]
fn first_matching_line_wins() {
    let trace = vec![
        cv("   Compiling foo v0.1.0"),
        cv("     Running `A=1 /x/rustc one.rs --cfg first`"),
        cv("     Running `B=2 /x/rustc two.rs --cfg second`"),
    ];
    let inv = capture_from_trace(&trace).unwrap();
    assert_eq!(inv.assigns, vec![assign("A", "1")]);
    assert_eq!(inv.tokens, toks(&["--cfg", "first"]));
}

#[test]
fn trace_without_invocation_line_is_fatal() {
    let trace = vec![cv("   Compiling foo v0.1.0"), cv("warning: unused variable")];
    assert_eq!(capture_from_trace(&trace), Err(CaptureError::NoInvocation));
    assert_eq!(capture_from_trace(&vec![]), Err(CaptureError::NoInvocation));
}

#[test]
fn bad_environment_prefix_is_fatal() {
    let line = cv("     Running `A='x rustc q main.rs --edition=2021`");
    assert_eq!(
        capture_from_trace(&vec![line]),
        Err(CaptureError::EnvSyntax { err: ScanError::UnclosedQuote })
    );
}

#[test]
fn missing_source_token_is_fatal() {
    let line = cv("     Running `A=1 /x/rustc --edition=2021`");
    assert_eq!(capture_from_trace(&vec![line]), Err(CaptureError::NoSourceToken));
}

#[test]
fn normalization_strips_json_flags_and_quoting_artifacts() {
    let s = cv("--error-format=json --json=artifacts --cfg 'feature=\"a\", feature=\"b\"' x.rs");
    let r = normalize_options(&s);
    assert_eq!(r, cv("--cfg feature=\"a\",feature=\"b\" x.rs"));
}

#[test]
fn normalization_leaves_plain_options_alone() {
    let s = cv("--edition=2021 --crate-name=main");
    assert_eq!(normalize_options(&s), cv("--edition=2021 --crate-name=main"));
}

#[test]
fn unterminated_json_flag_is_kept() {
    let s = cv("--json=artifacts");
    assert_eq!(normalize_options(&s), cv("--json=artifacts"));
}

#[test]
fn tokens_split_on_spaces() {
    assert_eq!(split_tokens(&cv("  a  bb c ")), toks(&["a", "bb", "c"]));
    assert_eq!(split_tokens(&cv("")), toks(&[]));
}
