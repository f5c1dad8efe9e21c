//! Invocation replay: rebuild the captured invocation from its persisted
//! text, hand back the environment assignments to apply and the argument
//! vector to invoke the compiler with, decide when a capture must run first,
//! and drive the two compiler interception points.

use vstd::prelude::*;

use crate::artifact::ArtifactError;
use crate::artifact::decode_artifact_spec;
use crate::artifact::parse_artifact;
use crate::capture::compiler_name;
use crate::scanner::EnvAssign;
use crate::text::copy_chars;

verus! {

broadcast use crate::text::lemma_vec_char_deep_view;

/// The argument vector of a replay: the compiler binary's name first, then
/// the captured tokens in captured order, then the caller's trailing
/// arguments appended verbatim, in order, after the captured ones.
pub open spec fn argv_spec(tokens: Seq<Seq<char>>, last_args: Seq<Seq<char>>) -> Seq<Seq<char>> {
    seq![compiler_name()] + tokens + last_args
}

/// Build the replay argument vector, per [`argv_spec`].
pub fn build_argv(tokens: &Vec<Vec<char>>, last_args: &Vec<Vec<char>>) -> (r: Vec<Vec<char>>)
    ensures
        r.deep_view() == argv_spec(tokens.deep_view(), last_args.deep_view()),
{
    let mut name: Vec<char> = Vec::new();
    name.push('r');
    name.push('u');
    name.push('s');
    name.push('t');
    name.push('c');
    proof {
        assert(name@ =~= compiler_name());
    }
    let mut out: Vec<Vec<char>> = Vec::new();
    out.push(name);
    proof {
        assert(out.deep_view() =~~= seq![compiler_name()]);
    }
    let ghost tdv = tokens.deep_view();
    let mut i: usize = 0;
    while i < tokens.len()
        invariant
            tdv == tokens.deep_view(),
            tdv.len() == tokens@.len(),
            0 <= i <= tdv.len(),
            out.deep_view() =~~= seq![compiler_name()] + tdv.take(i as int),
        decreases tdv.len() - i,
    {
        let ghost before = out.deep_view();
        let t = copy_chars(&tokens[i]);
        out.push(t);
        proof {
            assert(tokens[i as int].deep_view() == tdv[i as int]);
            assert(out.deep_view() =~~= before.push(tdv[i as int]));
            assert(tdv.take(i + 1) =~~= tdv.take(i as int).push(tdv[i as int]));
        }
        i = i + 1;
    }
    proof {
        assert(tdv.take(tdv.len() as int) =~~= tdv);
    }
    let ghost ldv = last_args.deep_view();
    let mut j: usize = 0;
    while j < last_args.len()
        invariant
            tdv == tokens.deep_view(),
            ldv == last_args.deep_view(),
            ldv.len() == last_args@.len(),
            0 <= j <= ldv.len(),
            out.deep_view() =~~= seq![compiler_name()] + tdv + ldv.take(j as int),
        decreases ldv.len() - j,
    {
        let ghost before = out.deep_view();
        let t = copy_chars(&last_args[j]);
        out.push(t);
        proof {
            assert(last_args[j as int].deep_view() == ldv[j as int]);
            assert(out.deep_view() =~~= before.push(ldv[j as int]));
            assert(ldv.take(j + 1) =~~= ldv.take(j as int).push(ldv[j as int]));
        }
        j = j + 1;
    }
    proof {
        assert(ldv.take(ldv.len() as int) =~~= ldv);
        assert(out.deep_view() =~~= argv_spec(tdv, ldv));
    }
    out
}

/// Everything a replay needs once the artifact is decoded: the environment
/// assignments to apply to the compiler's process, and the full argument
/// vector. Built fresh on every replay; never persisted.
#[derive(Clone, Debug, PartialEq, Eq)]
pub struct ReplayContext {
    pub env: Vec<EnvAssign>,
    pub argv: Vec<Vec<char>>,
}

/// Reconstruct a replay from the persisted artifact's text and the caller's
/// trailing arguments: the artifact's assignments become the environment to
/// apply, and the argument vector is the compiler name, the captured tokens,
/// and the trailing arguments, in that order. A malformed artifact is a
/// fatal error, returned as such.
pub fn replay_settings(artifact: &[char], last_args: &Vec<Vec<char>>) -> (r: Result<
    ReplayContext,
    ArtifactError,
>)
    ensures
        match r {
            Ok(ctx) => decode_artifact_spec(artifact@) matches Ok(civ)
                && ctx.env.deep_view() == civ.assigns && ctx.argv.deep_view() == argv_spec(
                civ.tokens,
                last_args.deep_view(),
            ),
            Err(e) => decode_artifact_spec(artifact@) == Err::<
                crate::capture::CapturedInvocationView,
                ArtifactError,
            >(e),
        },
{
    match parse_artifact(artifact) {
        Err(e) => Err(e),
        Ok(inv) => {
            let argv = build_argv(&inv.tokens, last_args);
            Ok(ReplayContext { env: inv.assigns, argv })
        },
    }
}

/// One top-level operation of a run.
#[derive(Clone, Copy, Debug, PartialEq, Eq, Structural)]
pub enum ReplayAction {
    /// Run the capture and persist its result.
    RunCapture,
    /// Invoke the compiler with the reconstructed invocation.
    RunCompiler,
}

/// The operations a run performs, in order, given whether the persisted
/// artifact is present: an absent artifact triggers exactly one capture
/// before the compiler is invoked — the single self-healing path — and a
/// present artifact never triggers one.
pub open spec fn replay_plan_spec(artifact_present: bool) -> Seq<ReplayAction> {
    if artifact_present {
        seq![ReplayAction::RunCompiler]
    } else {
        seq![ReplayAction::RunCapture, ReplayAction::RunCompiler]
    }
}

/// Plan a run, per [`replay_plan_spec`].
pub fn replay_plan(artifact_present: bool) -> (r: Vec<ReplayAction>)
    ensures
        r@ == replay_plan_spec(artifact_present),
{
    let mut r: Vec<ReplayAction> = Vec::new();
    if !artifact_present {
        r.push(ReplayAction::RunCapture);
    }
    r.push(ReplayAction::RunCompiler);
    proof {
        assert(r@ =~= replay_plan_spec(artifact_present));
    }
    r
}

/// Law: a run never captures more than once, and captures at all only when
/// the artifact is absent.
pub proof fn lemma_capture_exactly_once(artifact_present: bool)
    ensures
        replay_plan_spec(artifact_present).filter(|a: ReplayAction| a == ReplayAction::RunCapture)
            =~= (if artifact_present {
            Seq::<ReplayAction>::empty()
        } else {
            seq![ReplayAction::RunCapture]
        }),
{
    reveal_with_fuel(Seq::filter, 3);
    if artifact_present {
        assert(replay_plan_spec(true).drop_last() =~= Seq::<ReplayAction>::empty());
    } else {
        assert(replay_plan_spec(false).drop_last() =~= seq![ReplayAction::RunCapture]);
        assert(seq![ReplayAction::RunCapture].drop_last() =~= Seq::<ReplayAction>::empty());
    }
}

/// Where the driven compiler stands.
#[derive(Clone, Copy, Debug, PartialEq, Eq, Structural)]
pub enum DriveState {
    /// The compiler has not reported anything yet.
    NotStarted,
    /// Front-end parsing succeeded; this point is purely observational.
    ParsedOK,
    /// Semantic analysis completed; the compiled items are being reported.
    AnalysisDone,
    /// Compilation was halted before code generation.
    Stopped,
}

/// What the driven compiler reports at an interception point.
#[derive(Clone, Copy, Debug, PartialEq, Eq, Structural)]
pub enum DriveEvent {
    /// Front-end parsing of the crate root succeeded.
    Parsed,
    /// Semantic analysis completed.
    Analyzed,
    /// The compiled items have been enumerated and reported.
    Reported,
}

/// What the driver tells the compiler after an interception point.
#[derive(Clone, Copy, Debug, PartialEq, Eq, Structural)]
pub enum DriveDecision {
    /// Let compilation continue.
    Continue,
    /// Halt compilation; no code is generated.
    Stop,
}

/// An event arriving in a state it cannot arrive in: the compiler called the
/// interception points out of order.
#[derive(Clone, Copy, Debug, PartialEq, Eq, Structural)]
pub struct OutOfOrder;

/// The driver's transition table: parsing may succeed only at the start and
/// lets compilation continue; analysis may complete only after parsing;
/// once the report is done, compilation is halted. Anything else is out of
/// order.
pub open spec fn drive_step_spec(s: DriveState, e: DriveEvent) -> Result<
    (DriveState, DriveDecision),
    OutOfOrder,
> {
    match (s, e) {
        (DriveState::NotStarted, DriveEvent::Parsed) => Ok(
            (DriveState::ParsedOK, DriveDecision::Continue),
        ),
        (DriveState::ParsedOK, DriveEvent::Analyzed) => Ok(
            (DriveState::AnalysisDone, DriveDecision::Continue),
        ),
        (DriveState::AnalysisDone, DriveEvent::Reported) => Ok(
            (DriveState::Stopped, DriveDecision::Stop),
        ),
        _ => Err(OutOfOrder),
    }
}

/// Advance the driver by one compiler event, per [`drive_step_spec`].
pub fn drive_step(s: DriveState, e: DriveEvent) -> (r: Result<
    (DriveState, DriveDecision),
    OutOfOrder,
>)
    ensures
        r == drive_step_spec(s, e),
{
    match (s, e) {
        (DriveState::NotStarted, DriveEvent::Parsed) => Ok(
            (DriveState::ParsedOK, DriveDecision::Continue),
        ),
        (DriveState::ParsedOK, DriveEvent::Analyzed) => Ok(
            (DriveState::AnalysisDone, DriveDecision::Continue),
        ),
        (DriveState::AnalysisDone, DriveEvent::Reported) => Ok(
            (DriveState::Stopped, DriveDecision::Stop),
        ),
        _ => Err(OutOfOrder),
    }
}

} // verus!
