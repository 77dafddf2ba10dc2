use cloth_sim::control::{after_frame, frame_action, key_down, ControlKey, FrameAction, UpdateCommand};

#[test]
fn space_toggles_pause() {
    assert_eq!(key_down(UpdateCommand::Continue, ControlKey::Space), UpdateCommand::Stop);
    assert_eq!(key_down(UpdateCommand::Stop, ControlKey::Space), UpdateCommand::Continue);
    assert_eq!(key_down(UpdateCommand::OneFrame, ControlKey::Space), UpdateCommand::Continue);
}

#[test]
fn n_steps_once_then_stops() {
    let cmd = key_down(UpdateCommand::Stop, ControlKey::N);
    assert_eq!(cmd, UpdateCommand::OneFrame);
    assert_eq!(frame_action(cmd), FrameAction::Advance);
    let cmd = after_frame(cmd);
    assert_eq!(cmd, UpdateCommand::Stop);
    assert_eq!(frame_action(cmd), FrameAction::Skip);
}

#[test]
fn escape_quits_and_other_keys_do_nothing() {
    assert_eq!(key_down(UpdateCommand::Continue, ControlKey::Escape), UpdateCommand::Quit);
    assert_eq!(frame_action(UpdateCommand::Quit), FrameAction::Quit);
    assert_eq!(key_down(UpdateCommand::Stop, ControlKey::Other), UpdateCommand::Stop);
    assert_eq!(after_frame(UpdateCommand::Continue), UpdateCommand::Continue);
}
