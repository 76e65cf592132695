//! Gamepad input turned into the key events the UI understands.

use vstd::prelude::*;

verus! {

/// A direction of the left stick on one axis.
#[derive(Clone, Copy, Debug, PartialEq, Eq, Structural)]
pub enum Dir {
    Neutral,
    Left,
    Right,
    Up,
    Down,
}

/// Keys sent to the UI.
#[derive(Clone, Copy, Debug, PartialEq, Eq, Structural)]
pub enum NavKey {
    UpArrow,
    DownArrow,
    LeftArrow,
    RightArrow,
    Return,
    Backspace,
    Space,
    Menu,
}

/// Gamepad buttons that the launcher distinguishes.
#[derive(Clone, Copy, Debug, PartialEq, Eq, Structural)]
pub enum PadButton {
    DPadUp,
    DPadDown,
    DPadLeft,
    DPadRight,
    South,
    East,
    Start,
    Select,
    LeftTrigger2,
    RightTrigger2,
    Other,
}

/// A gamepad event, with stick positions already read as directions.
#[derive(Clone, Copy, Debug, PartialEq, Eq, Structural)]
pub enum PadEvent {
    ButtonPressed(PadButton),
    ButtonReleased(PadButton),
    LeftStickX(Dir),
    LeftStickY(Dir),
    Other,
}

/// What the UI is asked to do.
#[derive(Clone, Copy, Debug, PartialEq, Eq, Structural)]
pub enum PadAction {
    /// Send a key press (`true`) or release (`false`).
    Key(NavKey, bool),
    /// Terminate the program running in the interactive terminal.
    KillTerminal,
}

pub open spec fn spec_button_key(button: PadButton) -> Option<NavKey> {
    match button {
        PadButton::DPadUp => Some(NavKey::UpArrow),
        PadButton::DPadDown => Some(NavKey::DownArrow),
        PadButton::DPadLeft => Some(NavKey::LeftArrow),
        PadButton::DPadRight => Some(NavKey::RightArrow),
        PadButton::South => Some(NavKey::Return),
        PadButton::East => Some(NavKey::Backspace),
        PadButton::Start => Some(NavKey::Space),
        PadButton::Select => Some(NavKey::Menu),
        _ => None,
    }
}

/// The key a button sends, where it sends one.
pub fn button_to_key(button: PadButton) -> (k: Option<NavKey>)
    ensures
        k == spec_button_key(button),
{
    match button {
        PadButton::DPadUp => Some(NavKey::UpArrow),
        PadButton::DPadDown => Some(NavKey::DownArrow),
        PadButton::DPadLeft => Some(NavKey::LeftArrow),
        PadButton::DPadRight => Some(NavKey::RightArrow),
        PadButton::South => Some(NavKey::Return),
        PadButton::East => Some(NavKey::Backspace),
        PadButton::Start => Some(NavKey::Space),
        PadButton::Select => Some(NavKey::Menu),
        _ => None,
    }
}

/// The arrow key that a stick direction holds down.
pub open spec fn dir_key(d: Dir) -> Option<NavKey> {
    match d {
        Dir::Left => Some(NavKey::LeftArrow),
        Dir::Right => Some(NavKey::RightArrow),
        Dir::Up => Some(NavKey::UpArrow),
        Dir::Down => Some(NavKey::DownArrow),
        Dir::Neutral => None,
    }
}

/// The key to release and the key to press when the stick moves from
/// `current` to `new` on one axis.
pub open spec fn spec_stick_transition(current: Dir, new: Dir) -> (Option<NavKey>, Option<NavKey>) {
    if current == new {
        (None, None)
    } else {
        match (current, new) {
            (Dir::Left, Dir::Neutral) => (Some(NavKey::LeftArrow), None),
            (Dir::Right, Dir::Neutral) => (Some(NavKey::RightArrow), None),
            (Dir::Up, Dir::Neutral) => (Some(NavKey::UpArrow), None),
            (Dir::Down, Dir::Neutral) => (Some(NavKey::DownArrow), None),
            (Dir::Left, Dir::Right) => (Some(NavKey::LeftArrow), Some(NavKey::RightArrow)),
            (Dir::Right, Dir::Left) => (Some(NavKey::RightArrow), Some(NavKey::LeftArrow)),
            (Dir::Up, Dir::Down) => (Some(NavKey::UpArrow), Some(NavKey::DownArrow)),
            (Dir::Down, Dir::Up) => (Some(NavKey::DownArrow), Some(NavKey::UpArrow)),
            (Dir::Neutral, d) => (None, dir_key(d)),
            _ => (None, None),
        }
    }
}

/// The key to release and the key to press when the stick moves from
/// `current` to `new`.
pub fn stick_transition(current: Dir, new: Dir) -> (r: (Option<NavKey>, Option<NavKey>))
    ensures
        r == spec_stick_transition(current, new),
{
    if current == new {
        return (None, None);
    }
    match (current, new) {
        (Dir::Left, Dir::Neutral) => (Some(NavKey::LeftArrow), None),
        (Dir::Right, Dir::Neutral) => (Some(NavKey::RightArrow), None),
        (Dir::Up, Dir::Neutral) => (Some(NavKey::UpArrow), None),
        (Dir::Down, Dir::Neutral) => (Some(NavKey::DownArrow), None),
        (Dir::Left, Dir::Right) => (Some(NavKey::LeftArrow), Some(NavKey::RightArrow)),
        (Dir::Right, Dir::Left) => (Some(NavKey::RightArrow), Some(NavKey::LeftArrow)),
        (Dir::Up, Dir::Down) => (Some(NavKey::UpArrow), Some(NavKey::DownArrow)),
        (Dir::Down, Dir::Up) => (Some(NavKey::DownArrow), Some(NavKey::UpArrow)),
        (Dir::Neutral, d) => (
            None,
            match d {
                Dir::Left => Some(NavKey::LeftArrow),
                Dir::Right => Some(NavKey::RightArrow),
                Dir::Up => Some(NavKey::UpArrow),
                Dir::Down => Some(NavKey::DownArrow),
                _ => None,
            },
        ),
        _ => (None, None),
    }
}

/// Both directions lie on the horizontal axis, or both on the vertical one.
pub open spec fn same_axis(a: Dir, b: Dir) -> bool {
    let horizontal = |d: Dir| d == Dir::Neutral || d == Dir::Left || d == Dir::Right;
    let vertical = |d: Dir| d == Dir::Neutral || d == Dir::Up || d == Dir::Down;
    (horizontal(a) && horizontal(b)) || (vertical(a) && vertical(b))
}

/// On one axis, moving the stick releases exactly the key the old direction
/// held and presses exactly the key the new one holds, so the key held down
/// always matches where the stick points.
pub proof fn lemma_stick_keys_follow(current: Dir, new: Dir)
    requires
        same_axis(current, new),
    ensures
        current != new ==> spec_stick_transition(current, new) == (dir_key(current), dir_key(new)),
        current == new ==> spec_stick_transition(current, new) == (
            None::<NavKey>,
            None::<NavKey>,
        ),
{
}

/// The input state kept between gamepad events.
pub struct JoypadState {
    pub stick_x: Dir,
    pub stick_y: Dir,
    pub l2: bool,
    pub r2: bool,
}

pub struct JoypadView {
    pub stick_x: Dir,
    pub stick_y: Dir,
    pub l2: bool,
    pub r2: bool,
}

impl View for JoypadState {
    type V = JoypadView;

    open spec fn view(&self) -> JoypadView {
        JoypadView { stick_x: self.stick_x, stick_y: self.stick_y, l2: self.l2, r2: self.r2 }
    }
}

/// The key events of a stick transition: the release first, then the press.
pub open spec fn stick_actions(current: Dir, new: Dir) -> Seq<PadAction> {
    let (release, press) = spec_stick_transition(current, new);
    let first = match release {
        Some(k) => seq![PadAction::Key(k, false)],
        None => Seq::empty(),
    };
    match press {
        Some(k) => first.push(PadAction::Key(k, true)),
        None => first,
    }
}

pub open spec fn button_actions(button: PadButton, pressed: bool) -> Seq<PadAction> {
    match spec_button_key(button) {
        Some(k) => seq![PadAction::Key(k, pressed)],
        None => Seq::empty(),
    }
}

/// The state and key events after an event, before the trigger check.
pub open spec fn spec_event(s: JoypadView, ev: PadEvent) -> (JoypadView, Seq<PadAction>) {
    match ev {
        PadEvent::ButtonPressed(PadButton::LeftTrigger2) => (JoypadView { l2: true, ..s }, Seq::empty()),
        PadEvent::ButtonPressed(PadButton::RightTrigger2) => (JoypadView { r2: true, ..s }, Seq::empty()),
        PadEvent::ButtonPressed(b) => (s, button_actions(b, true)),
        PadEvent::ButtonReleased(PadButton::LeftTrigger2) => (JoypadView { l2: false, ..s }, Seq::empty()),
        PadEvent::ButtonReleased(PadButton::RightTrigger2) => (JoypadView { r2: false, ..s }, Seq::empty()),
        PadEvent::ButtonReleased(b) => (s, button_actions(b, false)),
        PadEvent::LeftStickX(d) => (JoypadView { stick_x: d, ..s }, stick_actions(s.stick_x, d)),
        PadEvent::LeftStickY(d) => (JoypadView { stick_y: d, ..s }, stick_actions(s.stick_y, d)),
        PadEvent::Other => (s, Seq::empty()),
    }
}

/// The state and actions after an event: holding both rear triggers while a
/// program runs in the terminal terminates it and clears both triggers.
pub open spec fn spec_handle_event(s: JoypadView, ev: PadEvent, terminal_running: bool) -> (
    JoypadView,
    Seq<PadAction>,
) {
    let (t, acts) = spec_event(s, ev);
    if t.l2 && t.r2 && terminal_running {
        (JoypadView { l2: false, r2: false, ..t }, acts.push(PadAction::KillTerminal))
    } else {
        (t, acts)
    }
}

fn push_stick_actions(actions: &mut Vec<PadAction>, current: Dir, new: Dir)
    ensures
        final(actions)@ == old(actions)@ + stick_actions(current, new),
{
    let (release, press) = stick_transition(current, new);
    let ghost before = actions@;
    if let Some(k) = release {
        actions.push(PadAction::Key(k, false));
    }
    if let Some(k) = press {
        actions.push(PadAction::Key(k, true));
    }
    proof {
        assert(actions@ =~= before + stick_actions(current, new));
    }
}

impl JoypadState {
    /// Stick centred, no trigger held.
    pub fn new() -> (s: Self)
        ensures
            s@ == (JoypadView { stick_x: Dir::Neutral, stick_y: Dir::Neutral, l2: false, r2: false }),
    {
        JoypadState { stick_x: Dir::Neutral, stick_y: Dir::Neutral, l2: false, r2: false }
    }

    /// Takes one gamepad event; `terminal_running` tells whether a program
    /// runs in the interactive terminal. Returns the actions, in order.
    pub fn handle_event(&mut self, ev: PadEvent, terminal_running: bool) -> (actions: Vec<
        PadAction,
    >)
        ensures
            (final(self)@, actions@) == spec_handle_event(old(self)@, ev, terminal_running),
    {
        let mut actions: Vec<PadAction> = Vec::new();
        match ev {
            PadEvent::ButtonPressed(button) => match button {
                PadButton::LeftTrigger2 => self.l2 = true,
                PadButton::RightTrigger2 => self.r2 = true,
                _ => {
                    if let Some(key) = button_to_key(button) {
                        actions.push(PadAction::Key(key, true));
                    }
                },
            },
            PadEvent::ButtonReleased(button) => match button {
                PadButton::LeftTrigger2 => self.l2 = false,
                PadButton::RightTrigger2 => self.r2 = false,
                _ => {
                    if let Some(key) = button_to_key(button) {
                        actions.push(PadAction::Key(key, false));
                    }
                },
            },
            PadEvent::LeftStickX(d) => {
                push_stick_actions(&mut actions, self.stick_x, d);
                self.stick_x = d;
            },
            PadEvent::LeftStickY(d) => {
                push_stick_actions(&mut actions, self.stick_y, d);
                self.stick_y = d;
            },
            PadEvent::Other => {},
        }
        proof {
            assert(actions@ =~= spec_event(old(self)@, ev).1);
        }
        if self.l2 && self.r2 && terminal_running {
            actions.push(PadAction::KillTerminal);
            self.l2 = false;
            self.r2 = false;
        }
        actions
    }
}

/// Each button other than the two rear triggers that sends a key sends its
/// press when pressed and the release of the same key when let go, first
/// among the actions, and leaves the stick and trigger state as it was; a
/// button that sends no key sends nothing. Only the trigger check may follow.
pub proof fn lemma_button_press_release(s: JoypadView, b: PadButton, terminal_running: bool)
    requires
        b != PadButton::LeftTrigger2,
        b != PadButton::RightTrigger2,
    ensures
        ({
            let kill = if s.l2 && s.r2 && terminal_running {
                seq![PadAction::KillTerminal]
            } else {
                Seq::<PadAction>::empty()
            };
            let after = if s.l2 && s.r2 && terminal_running {
                JoypadView { l2: false, r2: false, ..s }
            } else {
                s
            };
            &&& spec_button_key(b) matches Some(k) ==> spec_handle_event(
                s,
                PadEvent::ButtonPressed(b),
                terminal_running,
            ) == (after, seq![PadAction::Key(k, true)] + kill)
            &&& spec_button_key(b) matches Some(k) ==> spec_handle_event(
                s,
                PadEvent::ButtonReleased(b),
                terminal_running,
            ) == (after, seq![PadAction::Key(k, false)] + kill)
            &&& spec_button_key(b) is None ==> spec_handle_event(
                s,
                PadEvent::ButtonPressed(b),
                terminal_running,
            ) == (after, kill)
            &&& spec_button_key(b) is None ==> spec_handle_event(
                s,
                PadEvent::ButtonReleased(b),
                terminal_running,
            ) == (after, kill)
        }),
{
    if let Some(k) = spec_button_key(b) {
        assert(seq![PadAction::Key(k, true)].push(PadAction::KillTerminal) =~= seq![
            PadAction::Key(k, true),
        ] + seq![PadAction::KillTerminal]);
        assert(seq![PadAction::Key(k, false)].push(PadAction::KillTerminal) =~= seq![
            PadAction::Key(k, false),
        ] + seq![PadAction::KillTerminal]);
        assert(seq![PadAction::Key(k, true)] =~= seq![PadAction::Key(k, true)] + Seq::<
            PadAction,
        >::empty());
        assert(seq![PadAction::Key(k, false)] =~= seq![PadAction::Key(k, false)] + Seq::<
            PadAction,
        >::empty());
    } else {
        assert(Seq::<PadAction>::empty().push(PadAction::KillTerminal) =~= seq![
            PadAction::KillTerminal,
        ]);
    }
}

/// The keys the buttons send: the D-pad its arrows, South `Return`, East
/// `Backspace`, Start `Space` and Select `Menu`; no other button sends one.
pub proof fn lemma_button_keys()
    ensures
        spec_button_key(PadButton::DPadUp) == Some(NavKey::UpArrow),
        spec_button_key(PadButton::DPadDown) == Some(NavKey::DownArrow),
        spec_button_key(PadButton::DPadLeft) == Some(NavKey::LeftArrow),
        spec_button_key(PadButton::DPadRight) == Some(NavKey::RightArrow),
        spec_button_key(PadButton::South) == Some(NavKey::Return),
        spec_button_key(PadButton::East) == Some(NavKey::Backspace),
        spec_button_key(PadButton::Start) == Some(NavKey::Space),
        spec_button_key(PadButton::Select) == Some(NavKey::Menu),
        spec_button_key(PadButton::LeftTrigger2) is None,
        spec_button_key(PadButton::RightTrigger2) is None,
        spec_button_key(PadButton::Other) is None,
{
}

/// Both triggers held while a program runs always terminate it, and the
/// triggers then count as released; otherwise nothing is terminated.
pub proof fn lemma_trigger_combo(s: JoypadView, ev: PadEvent, terminal_running: bool)
    ensures
        ({
            let (t, _) = spec_event(s, ev);
            let (u, acts) = spec_handle_event(s, ev, terminal_running);
            &&& (t.l2 && t.r2 && terminal_running) <==> (acts.len() > 0 && acts.last()
                == PadAction::KillTerminal)
            &&& (t.l2 && t.r2 && terminal_running) ==> !u.l2 && !u.r2
        }),
{
    let (t, a) = spec_event(s, ev);
    assert(forall|i: int| 0 <= i < a.len() ==> a[i] != PadAction::KillTerminal);
}

} // verus!
