//! Tests for the persisted artifact and invocation replay.

use elcc::artifact::{parse_artifact, render_artifact, ArtifactError};
use elcc::capture::CapturedInvocation;
use elcc::cli::{parse_cli, Cli, Command};
use elcc::replay::{
    build_argv, drive_step, replay_plan, replay_settings, DriveDecision, DriveEvent, DriveState,
    OutOfOrder, ReplayAction,
};
use elcc::scanner::EnvAssign;

fn cv(s: &str) -> Vec<char> {
    s.chars().collect()
}

fn toks(ts: &[&str]) -> Vec<Vec<char>> {
    ts.iter().map(|t| cv(t)).collect()
}

fn assign(key: &str, value: &str) -> EnvAssign {
    EnvAssign { key: cv(key), value: cv(value) }
}

#[test]
fn replay_restores_env_and_builds_argv_in_order() {
    let artifact = cv("FOO = 1\n--edition=2021 --crate-name=main");
    let ctx = replay_settings(&artifact, &toks(&["extra.rs", "--verbose"])).unwrap();
    assert_eq!(ctx.env, vec![assign("FOO", "1")]);
    assert_eq!(
        ctx.argv,
        toks(&["rustc", "--edition=2021", "--crate-name=main", "extra.rs", "--verbose"])
    );
}

#[test]
fn argv_starts_with_the_compiler_name() {
    let argv = build_argv(&toks(&["--cap-lints", "allow"]), &toks(&[]));
    assert_eq!(argv, toks(&["rustc", "--cap-lints", "allow"]));
}

#[test]
fn artifact_round_trips_through_its_text() {
    let inv = CapturedInvocation {
        assigns: vec![assign("FOO", "1"), assign("BAR", "a b"), assign("EMPTY", "")],
        tokens: toks(&["--edition=2021", "--crate-name=main"]),
    };
    let text = render_artifact(&inv);
    assert_eq!(
        text,
        cv("FOO = 1\nBAR = a b\nEMPTY = \n--edition=2021 --crate-name=main")
    );
    let back = parse_artifact(&text).unwrap();
    assert_eq!(back, inv);
}

#[test]
fn truncated_artifact_is_an_error() {
    assert_eq!(parse_artifact(&cv("")), Err(ArtifactError::Truncated));
    assert_eq!(parse_artifact(&cv("FOO = 1\n")), Err(ArtifactError::Truncated));
}

#[test]
fn malformed_assignment_line_is_an_error() {
    assert_eq!(parse_artifact(&cv("FOO=1\ntokens")), Err(ArtifactError::BadAssign));
    assert_eq!(parse_artifact(&cv("F O = 1\ntokens")), Err(ArtifactError::BadAssign));
}

#[test]
fn missing_artifact_triggers_exactly_one_capture() {
    let plan = replay_plan(false);
    assert_eq!(plan, vec![ReplayAction::RunCapture, ReplayAction::RunCompiler]);
    assert_eq!(
        plan.iter().filter(|a| **a == ReplayAction::RunCapture).count(),
        1
    );
    let plan = replay_plan(true);
    assert_eq!(plan, vec![ReplayAction::RunCompiler]);
    assert_eq!(
        plan.iter().filter(|a| **a == ReplayAction::RunCapture).count(),
        0
    );
}

#[test]
fn driver_walks_its_states_in_order() {
    let (s1, d1) = drive_step(DriveState::NotStarted, DriveEvent::Parsed).unwrap();
    assert_eq!((s1, d1), (DriveState::ParsedOK, DriveDecision::Continue));
    let (s2, d2) = drive_step(s1, DriveEvent::Analyzed).unwrap();
    assert_eq!((s2, d2), (DriveState::AnalysisDone, DriveDecision::Continue));
    let (s3, d3) = drive_step(s2, DriveEvent::Reported).unwrap();
    assert_eq!((s3, d3), (DriveState::Stopped, DriveDecision::Stop));
}

#[test]
fn out_of_order_compiler_events_are_rejected() {
    assert_eq!(drive_step(DriveState::NotStarted, DriveEvent::Analyzed), Err(OutOfOrder));
    assert_eq!(drive_step(DriveState::Stopped, DriveEvent::Parsed), Err(OutOfOrder));
    assert_eq!(drive_step(DriveState::ParsedOK, DriveEvent::Reported), Err(OutOfOrder));
}

#[test]
fn debug_option_implies_verbose() {
    let cli = parse_cli(Cli {
        debug: true,
        verbose: false,
        command: Command::Init { force: false },
    });
    assert!(cli.verbose);
    assert!(cli.debug);
    let cli = parse_cli(Cli {
        debug: false,
        verbose: false,
        command: Command::Run { rs_path: "src/main.rs".to_string(), last_args: vec![] },
    });
    assert!(!cli.verbose);
    match cli.command {
        Command::Run { rs_path, last_args } => {
            assert_eq!(rs_path, "src/main.rs");
            assert!(last_args.is_empty());
        }
        _ => unreachable!(),
    }
}
