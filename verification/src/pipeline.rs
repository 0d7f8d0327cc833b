//! The pipeline's stage machine: a linear run with one fan-out stage.
//! Discovery, extraction and reconciliation never halt the run; per-unit
//! compile failures only thin the object set; a link failure skips the
//! launch; the launch is best-effort and terminal either way.

use vstd::prelude::*;

verus! {

/// One sequential phase of the staged build.
#[derive(Debug, Clone, Copy, PartialEq, Eq, Structural)]
pub enum PipelineStage {
    Idle,
    Discovering,
    Extracting,
    Reconciling,
    Compiling,
    Linking,
    Launching,
    Done,
    Failed,
}

/// The stage that follows `stage` when its work ends with `stage_ok`.
/// Failures before linking degrade the stage's output but never halt the
/// run — in particular the link stage runs even when compile units failed.
/// A failed link or launch ends the run as failed; the terminal stages
/// absorb.
pub open spec fn advance(stage: PipelineStage, stage_ok: bool) -> PipelineStage {
    match stage {
        PipelineStage::Idle => PipelineStage::Discovering,
        PipelineStage::Discovering => PipelineStage::Extracting,
        PipelineStage::Extracting => PipelineStage::Reconciling,
        PipelineStage::Reconciling => PipelineStage::Compiling,
        PipelineStage::Compiling => PipelineStage::Linking,
        PipelineStage::Linking => if stage_ok {
            PipelineStage::Launching
        } else {
            PipelineStage::Failed
        },
        PipelineStage::Launching => if stage_ok {
            PipelineStage::Done
        } else {
            PipelineStage::Failed
        },
        PipelineStage::Done => PipelineStage::Done,
        PipelineStage::Failed => PipelineStage::Failed,
    }
}

/// Steps the pipeline after one stage's work resolves.
pub fn next_stage(stage: PipelineStage, stage_ok: bool) -> (r: PipelineStage)
    ensures
        r == advance(stage, stage_ok),
{
    match stage {
        PipelineStage::Idle => PipelineStage::Discovering,
        PipelineStage::Discovering => PipelineStage::Extracting,
        PipelineStage::Extracting => PipelineStage::Reconciling,
        PipelineStage::Reconciling => PipelineStage::Compiling,
        PipelineStage::Compiling => PipelineStage::Linking,
        PipelineStage::Linking => {
            if stage_ok {
                PipelineStage::Launching
            } else {
                PipelineStage::Failed
            }
        },
        PipelineStage::Launching => {
            if stage_ok {
                PipelineStage::Done
            } else {
                PipelineStage::Failed
            }
        },
        PipelineStage::Done => PipelineStage::Done,
        PipelineStage::Failed => PipelineStage::Failed,
    }
}

} // verus!
