//! The decisions of the kernel's interactive loop: who gets a key, when the
//! desktop opens and closes, and what to redraw when a user session ends. The
//! loop itself (polling the keyboard, drawing, halting) runs outside the library.
use vstd::prelude::*;

use crate::gui::InputEvent;
use crate::keyboard::Key;

verus! {

/// Where keyboard input goes while no user process owns the terminal.
#[derive(Clone, Copy, PartialEq, Eq, Structural, Debug)]
pub struct Frontend {
    pub desktop_active: bool,
    pub userspace_was_foreground: bool,
}

/// What the loop does after a decision.
#[derive(Clone, Copy, PartialEq, Eq, Structural, Debug)]
pub enum FrontendAction {
    /// Nothing to draw or deliver.
    Idle,
    /// Clear the screen and show the shell banner, the end of the session and a prompt.
    SessionEnded,
    /// Draw the desktop.
    ShowDesktop,
    /// Clear the screen and show the shell banner and a prompt.
    ShowShell,
    /// Hand the event to the desktop, then draw it.
    DesktopInput(InputEvent),
    /// Hand the key to the shell.
    ShellInput(Key),
}

/// The desktop's event for a key; F1 is no event, it switches views.
pub open spec fn spec_key_event(key: Key) -> Option<InputEvent> {
    match key {
        Key::Char(c) => Some(InputEvent::Key(c)),
        Key::Enter => Some(InputEvent::Key('\n')),
        Key::Backspace => Some(InputEvent::Key('\u{8}')),
        Key::Tab => Some(InputEvent::Key('\t')),
        Key::F1 => None,
    }
}

/// The desktop's event for `key`, `None` for F1.
pub fn key_event(key: Key) -> (event: Option<InputEvent>)
    ensures
        event == spec_key_event(key),
{
    match key {
        Key::Char(character) => Some(InputEvent::Key(character)),
        Key::Enter => Some(InputEvent::Key('\n')),
        Key::Backspace => Some(InputEvent::Key('\u{8}')),
        Key::Tab => Some(InputEvent::Key('\t')),
        Key::F1 => None,
    }
}

/// The state and action after `key` arrives in state `state`.
pub open spec fn routed(state: Frontend, key: Key) -> (Frontend, FrontendAction) {
    match key {
        Key::F1 => {
            let next = Frontend { desktop_active: !state.desktop_active, ..state };
            (next, if next.desktop_active { FrontendAction::ShowDesktop } else { FrontendAction::ShowShell })
        },
        _ => if state.desktop_active {
            (state, FrontendAction::DesktopInput(spec_key_event(key).unwrap()))
        } else {
            (state, FrontendAction::ShellInput(key))
        },
    }
}

impl Frontend {
    /// The state at boot: the shell has the keyboard.
    pub fn new() -> (frontend: Self)
        ensures
            !frontend.desktop_active,
            !frontend.userspace_was_foreground,
    {
        Frontend { desktop_active: false, userspace_was_foreground: false }
    }

    /// Records whether a user process owns the terminal now. When one stopped owning
    /// it since the last call, the session has ended: the shell comes back and the
    /// desktop closes. The keyboard may be polled by the kernel only while no user
    /// process owns the terminal.
    pub fn foreground_changed(&mut self, userspace_foreground: bool) -> (action: FrontendAction)
        ensures
            final(self).userspace_was_foreground == userspace_foreground,
            old(self).userspace_was_foreground && !userspace_foreground ==> {
                &&& action == FrontendAction::SessionEnded
                &&& !final(self).desktop_active
            },
            !(old(self).userspace_was_foreground && !userspace_foreground) ==> {
                &&& action == FrontendAction::Idle
                &&& final(self).desktop_active == old(self).desktop_active
            },
    {
        let ended = self.userspace_was_foreground && !userspace_foreground;
        self.userspace_was_foreground = userspace_foreground;
        if ended {
            self.desktop_active = false;
            FrontendAction::SessionEnded
        } else {
            FrontendAction::Idle
        }
    }

    /// Routes a key: F1 switches between the shell and the desktop; any other key
    /// goes to whichever of them is shown.
    pub fn on_key(&mut self, key: Key) -> (action: FrontendAction)
        ensures
            (*final(self), action) == routed(*old(self), key),
    {
        match key {
            Key::F1 => {
                self.desktop_active = !self.desktop_active;
                if self.desktop_active {
                    FrontendAction::ShowDesktop
                } else {
                    FrontendAction::ShowShell
                }
            },
            _ => {
                if self.desktop_active {
                    match key_event(key) {
                        Some(event) => FrontendAction::DesktopInput(event),
                        None => FrontendAction::Idle,
                    }
                } else {
                    FrontendAction::ShellInput(key)
                }
            },
        }
    }
}

/// F1 toggles: pressed twice, it leaves the view as it was.
pub proof fn law_f1_twice_restores(state: Frontend)
    ensures
        routed(routed(state, Key::F1).0, Key::F1).0 == state,
{
}

} // verus!
