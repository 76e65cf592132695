use arkana::joypad::{
    button_to_key, stick_transition, Dir, JoypadState, NavKey, PadAction, PadButton, PadEvent,
};

#[test]
fn buttons_map_to_keys() {
    assert_eq!(button_to_key(PadButton::DPadUp), Some(NavKey::UpArrow));
    assert_eq!(button_to_key(PadButton::DPadDown), Some(NavKey::DownArrow));
    assert_eq!(button_to_key(PadButton::DPadLeft), Some(NavKey::LeftArrow));
    assert_eq!(button_to_key(PadButton::DPadRight), Some(NavKey::RightArrow));
    assert_eq!(button_to_key(PadButton::South), Some(NavKey::Return));
    assert_eq!(button_to_key(PadButton::East), Some(NavKey::Backspace));
    assert_eq!(button_to_key(PadButton::Start), Some(NavKey::Space));
    assert_eq!(button_to_key(PadButton::Select), Some(NavKey::Menu));
    assert_eq!(button_to_key(PadButton::LeftTrigger2), None);
    assert_eq!(button_to_key(PadButton::Other), None);
}

#[test]
fn stick_transitions_release_then_press() {
    assert_eq!(stick_transition(Dir::Neutral, Dir::Left), (None, Some(NavKey::LeftArrow)));
    assert_eq!(stick_transition(Dir::Left, Dir::Neutral), (Some(NavKey::LeftArrow), None));
    assert_eq!(
        stick_transition(Dir::Left, Dir::Right),
        (Some(NavKey::LeftArrow), Some(NavKey::RightArrow))
    );
    assert_eq!(
        stick_transition(Dir::Down, Dir::Up),
        (Some(NavKey::DownArrow), Some(NavKey::UpArrow))
    );
    assert_eq!(stick_transition(Dir::Up, Dir::Up), (None, None));
    assert_eq!(stick_transition(Dir::Left, Dir::Up), (None, None));
}

#[test]
fn stick_events_send_key_events() {
    let mut pad = JoypadState::new();
    assert_eq!(
        pad.handle_event(PadEvent::LeftStickX(Dir::Right), false),
        vec![PadAction::Key(NavKey::RightArrow, true)]
    );
    assert_eq!(pad.handle_event(PadEvent::LeftStickX(Dir::Right), false), vec![]);
    assert_eq!(
        pad.handle_event(PadEvent::LeftStickX(Dir::Left), false),
        vec![
            PadAction::Key(NavKey::RightArrow, false),
            PadAction::Key(NavKey::LeftArrow, true)
        ]
    );
    assert_eq!(
        pad.handle_event(PadEvent::LeftStickY(Dir::Down), false),
        vec![PadAction::Key(NavKey::DownArrow, true)]
    );
    assert_eq!(
        pad.handle_event(PadEvent::LeftStickX(Dir::Neutral), false),
        vec![PadAction::Key(NavKey::LeftArrow, false)]
    );
}

#[test]
fn buttons_send_presses_and_releases() {
    let mut pad = JoypadState::new();
    assert_eq!(
        pad.handle_event(PadEvent::ButtonPressed(PadButton::South), true),
        vec![PadAction::Key(NavKey::Return, true)]
    );
    assert_eq!(
        pad.handle_event(PadEvent::ButtonReleased(PadButton::South), true),
        vec![PadAction::Key(NavKey::Return, false)]
    );
    assert_eq!(pad.handle_event(PadEvent::ButtonPressed(PadButton::Other), true), vec![]);
    assert_eq!(pad.handle_event(PadEvent::Other, true), vec![]);
}

#[test]
fn both_triggers_kill_a_running_terminal() {
    let mut pad = JoypadState::new();
    assert_eq!(pad.handle_event(PadEvent::ButtonPressed(PadButton::LeftTrigger2), true), vec![]);
    assert_eq!(
        pad.handle_event(PadEvent::ButtonPressed(PadButton::RightTrigger2), true),
        vec![PadAction::KillTerminal]
    );
    assert!(!pad.l2 && !pad.r2);
}

#[test]
fn triggers_without_a_terminal_stay_held() {
    let mut pad = JoypadState::new();
    pad.handle_event(PadEvent::ButtonPressed(PadButton::LeftTrigger2), false);
    assert_eq!(pad.handle_event(PadEvent::ButtonPressed(PadButton::RightTrigger2), false), vec![]);
    assert!(pad.l2 && pad.r2);
    // the next event while the terminal runs terminates it
    assert_eq!(
        pad.handle_event(PadEvent::ButtonPressed(PadButton::South), true),
        vec![PadAction::Key(NavKey::Return, true), PadAction::KillTerminal]
    );
    pad.handle_event(PadEvent::ButtonPressed(PadButton::LeftTrigger2), false);
    pad.handle_event(PadEvent::ButtonReleased(PadButton::LeftTrigger2), false);
    pad.handle_event(PadEvent::ButtonPressed(PadButton::RightTrigger2), true);
    assert!(!pad.l2 && pad.r2);
}
