//! The run control of the host loop: keys pause, resume, single-step or
//! quit the simulation, and each frame either advances it or not.
use vstd::prelude::*;

verus! {

/// What the host loop does with the simulation.
#[derive(Clone, Copy, Debug, PartialEq, Eq, Structural)]
pub enum UpdateCommand {
    /// Advance one frame, then stop.
    OneFrame,
    /// Advance every frame.
    Continue,
    /// Do not advance.
    Stop,
    /// Close the window.
    Quit,
}

/// The keys the control reacts to.
#[derive(Clone, Copy, Debug, PartialEq, Eq, Structural)]
pub enum ControlKey {
    /// Single-step.
    N,
    /// Toggle pause.
    Space,
    /// Quit.
    Escape,
    /// Any other key.
    Other,
}

/// What one frame does.
#[derive(Clone, Copy, Debug, PartialEq, Eq, Structural)]
pub enum FrameAction {
    /// Leave the simulation as it is.
    Skip,
    /// Close the window without advancing.
    Quit,
    /// Advance the simulation.
    Advance,
}

/// The command after `key` is pressed: N single-steps, Space pauses a
/// running simulation and resumes any other, Escape quits, and other keys
/// change nothing.
pub fn key_down(cmd: UpdateCommand, key: ControlKey) -> (r: UpdateCommand)
    ensures
        key == ControlKey::N ==> r == UpdateCommand::OneFrame,
        key == ControlKey::Space && cmd == UpdateCommand::Continue ==> r == UpdateCommand::Stop,
        key == ControlKey::Space && cmd != UpdateCommand::Continue ==> r == UpdateCommand::Continue,
        key == ControlKey::Escape ==> r == UpdateCommand::Quit,
        key == ControlKey::Other ==> r == cmd,
{
    match key {
        ControlKey::N => UpdateCommand::OneFrame,
        ControlKey::Space => match cmd {
            UpdateCommand::Continue => UpdateCommand::Stop,
            _ => UpdateCommand::Continue,
        },
        ControlKey::Escape => UpdateCommand::Quit,
        ControlKey::Other => cmd,
    }
}

/// What a frame does under `cmd`: a stopped simulation is skipped, a
/// quitting one closes, and otherwise it advances.
pub fn frame_action(cmd: UpdateCommand) -> (r: FrameAction)
    ensures
        cmd == UpdateCommand::Stop ==> r == FrameAction::Skip,
        cmd == UpdateCommand::Quit ==> r == FrameAction::Quit,
        cmd == UpdateCommand::Continue || cmd == UpdateCommand::OneFrame ==> r == FrameAction::Advance,
{
    match cmd {
        UpdateCommand::Stop => FrameAction::Skip,
        UpdateCommand::Quit => FrameAction::Quit,
        _ => FrameAction::Advance,
    }
}

/// The command after a frame that advanced: a single step stops, anything
/// else stays.
pub fn after_frame(cmd: UpdateCommand) -> (r: UpdateCommand)
    ensures
        cmd == UpdateCommand::OneFrame ==> r == UpdateCommand::Stop,
        cmd != UpdateCommand::OneFrame ==> r == cmd,
{
    match cmd {
        UpdateCommand::OneFrame => UpdateCommand::Stop,
        _ => cmd,
    }
}

} // verus!
