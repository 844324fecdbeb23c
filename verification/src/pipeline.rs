//! The repackaging pipeline state machine, and the channel-marker logic.
//!
//! One run walks `Ready → Unpacked → IdentityRewritten → Repacked → Signed
//! → ChannelRestored → Finalized`; the first failing stage moves the run
//! to the terminal `Failed` state that names it. The caller performs each
//! stage's outside work (tool invocation, file moves) and reports only
//! success or failure back; the machine decides what comes next and never
//! retries, so artifacts of completed stages are left where they are.
use vstd::prelude::*;

use crate::text::{
    chars_eq, chars_of, copy_range, rfind_sub, scan_last_sub, trim_chars, trim_ws,
};

verus! {

/// The six stages of one run, in order.
#[derive(Debug, Clone, Copy, PartialEq, Eq, Structural)]
pub enum Stage {
    /// Decompile the source package into a fresh cache directory.
    Decompile,
    /// Write package name, display name and icon; run the authority cascade.
    Rewrite,
    /// Rebuild the tree into a new package artifact.
    Build,
    /// Sign the rebuilt artifact in place.
    Sign,
    /// Read the channel marker from the source and re-apply it if present.
    Channel,
    /// Move the artifact onto the destination path.
    Finalize,
}

/// Where a run stands.
#[derive(Debug, Clone, Copy, PartialEq, Eq, Structural)]
pub enum PipelineState {
    Ready,
    Unpacked,
    IdentityRewritten,
    Repacked,
    Signed,
    ChannelRestored,
    Finalized,
    /// Terminal: the named stage failed; earlier artifacts stay on disk.
    Failed { stage: Stage },
}

/// The stage a state is about to run, or nothing when it is terminal.
pub open spec fn next_stage_spec(s: PipelineState) -> Option<Stage> {
    match s {
        PipelineState::Ready => Some(Stage::Decompile),
        PipelineState::Unpacked => Some(Stage::Rewrite),
        PipelineState::IdentityRewritten => Some(Stage::Build),
        PipelineState::Repacked => Some(Stage::Sign),
        PipelineState::Signed => Some(Stage::Channel),
        PipelineState::ChannelRestored => Some(Stage::Finalize),
        PipelineState::Finalized => None,
        PipelineState::Failed { .. } => None,
    }
}

/// The state after the pending stage reports success or failure: success
/// advances one step, failure is terminal at that stage, and a terminal
/// state never moves again.
pub open spec fn apply_spec(s: PipelineState, success: bool) -> PipelineState {
    match next_stage_spec(s) {
        None => s,
        Some(stage) => if !success {
            PipelineState::Failed { stage }
        } else {
            match s {
                PipelineState::Ready => PipelineState::Unpacked,
                PipelineState::Unpacked => PipelineState::IdentityRewritten,
                PipelineState::IdentityRewritten => PipelineState::Repacked,
                PipelineState::Repacked => PipelineState::Signed,
                PipelineState::Signed => PipelineState::ChannelRestored,
                _ => PipelineState::Finalized,
            }
        },
    }
}

/// Exec mirror of `next_stage_spec`.
pub fn next_stage(s: &PipelineState) -> (r: Option<Stage>)
    ensures
        r == next_stage_spec(*s),
{
    match s {
        PipelineState::Ready => Some(Stage::Decompile),
        PipelineState::Unpacked => Some(Stage::Rewrite),
        PipelineState::IdentityRewritten => Some(Stage::Build),
        PipelineState::Repacked => Some(Stage::Sign),
        PipelineState::Signed => Some(Stage::Channel),
        PipelineState::ChannelRestored => Some(Stage::Finalize),
        PipelineState::Finalized => None,
        PipelineState::Failed { .. } => None,
    }
}

/// Exec mirror of `apply_spec`.
pub fn apply_outcome(s: &PipelineState, success: bool) -> (r: PipelineState)
    ensures
        r == apply_spec(*s, success),
        !success && next_stage_spec(*s) is Some ==> r == (PipelineState::Failed {
            stage: next_stage_spec(*s)->Some_0,
        }),
{
    match next_stage(s) {
        None => *s,
        Some(stage) => {
            if !success {
                PipelineState::Failed { stage }
            } else {
                match s {
                    PipelineState::Ready => PipelineState::Unpacked,
                    PipelineState::Unpacked => PipelineState::IdentityRewritten,
                    PipelineState::IdentityRewritten => PipelineState::Repacked,
                    PipelineState::Repacked => PipelineState::Signed,
                    PipelineState::Signed => PipelineState::ChannelRestored,
                    _ => PipelineState::Finalized,
                }
            }
        },
    }
}

/// A terminal state never moves again, whatever is reported to it.
pub proof fn lemma_terminal_stays(s: PipelineState, success: bool)
    requires
        next_stage_spec(s) is None,
    ensures
        apply_spec(s, success) == s,
{
}

/// A failure at the build stage leaves the run terminally failed at
/// `Build`: the rewritten tree from the earlier stages is kept (the
/// machine orders no cleanup), and neither the sign stage nor the channel
/// stage is ever issued afterwards.
pub proof fn lemma_abort_at_build()
    ensures
        apply_spec(PipelineState::Unpacked, true) == PipelineState::IdentityRewritten,
        apply_spec(PipelineState::IdentityRewritten, false) == (PipelineState::Failed {
            stage: Stage::Build,
        }),
        next_stage_spec(PipelineState::Failed { stage: Stage::Build }) is None,
        forall|b: bool|
            apply_spec(PipelineState::Failed { stage: Stage::Build }, b) == (PipelineState::Failed {
                stage: Stage::Build,
            }),
{
}

/// The marker that precedes the channel in the tool's report.
pub open spec fn channel_marker() -> Seq<char> {
    "Channel: "@
}

/// The channel a tool report carries: the text after the last marker,
/// trimmed of whitespace; nothing when the marker never occurs.
pub open spec fn channel_of(output: Seq<char>) -> Option<Seq<char>> {
    let p = rfind_sub(output, output.len() - channel_marker().len(), channel_marker());
    if p < 0 {
        None
    } else {
        Some(trim_ws(output.skip(p + channel_marker().len())))
    }
}

/// Reads the channel out of the channel tool's report.
pub fn extract_channel(output: &Vec<char>) -> (r: Option<Vec<char>>)
    ensures
        match r {
            Some(ch) => channel_of(output@) == Some(ch@),
            None => channel_of(output@) is None,
        },
{
    let marker = chars_of("Channel: ");
    let n: usize = output.len();
    proof {
        reveal_strlit("Channel: ");
        assert(marker@.len() == 9);
    }
    if marker.len() > n {
        proof {
            assert(output@.len() - channel_marker().len() < 0);
        }
        return None;
    }
    match scan_last_sub(output, &marker) {
        None => None,
        Some(p) => {
            let tail = copy_range(output, p + marker.len(), n);
            proof {
                assert(tail@ =~= output@.skip(p + channel_marker().len()));
            }
            Some(trim_chars(&tail))
        },
    }
}

/// Whether a channel read from the source package is restored onto the
/// rebuilt one: only when it is neither empty nor the literal `null`.
pub fn channel_should_restore(channel: &Vec<char>) -> (r: bool)
    ensures
        r == (channel@.len() > 0 && channel@ != "null"@),
{
    if channel.len() == 0 {
        return false;
    }
    let null_lit = chars_of("null");
    !chars_eq(channel, &null_lit)
}

} // verus!
