use wovenhat::frontend::{key_event, Frontend, FrontendAction};
use wovenhat::gui::InputEvent;
use wovenhat::keyboard::Key;

#[test]
fn keys_go_to_the_shell_at_boot() {
    let mut frontend = Frontend::new();
    assert_eq!(frontend.on_key(Key::Char('l')), FrontendAction::ShellInput(Key::Char('l')));
    assert_eq!(frontend.on_key(Key::Enter), FrontendAction::ShellInput(Key::Enter));
    assert!(!frontend.desktop_active);
}

#[test]
fn f1_toggles_the_desktop() {
    let mut frontend = Frontend::new();
    assert_eq!(frontend.on_key(Key::F1), FrontendAction::ShowDesktop);
    assert!(frontend.desktop_active);
    assert_eq!(frontend.on_key(Key::Tab), FrontendAction::DesktopInput(InputEvent::Key('\t')));
    assert_eq!(frontend.on_key(Key::Backspace), FrontendAction::DesktopInput(InputEvent::Key('\u{8}')));
    assert_eq!(frontend.on_key(Key::F1), FrontendAction::ShowShell);
    assert_eq!(frontend, Frontend::new());
}

#[test]
fn key_events_of_the_desktop() {
    assert_eq!(key_event(Key::Char('a')), Some(InputEvent::Key('a')));
    assert_eq!(key_event(Key::Enter), Some(InputEvent::Key('\n')));
    assert_eq!(key_event(Key::F1), None);
}

#[test]
fn end_of_a_user_session_brings_the_shell_back() {
    let mut frontend = Frontend::new();
    assert_eq!(frontend.foreground_changed(true), FrontendAction::Idle);
    frontend.desktop_active = true;
    assert_eq!(frontend.foreground_changed(true), FrontendAction::Idle);
    assert!(frontend.desktop_active);
    assert_eq!(frontend.foreground_changed(false), FrontendAction::SessionEnded);
    assert!(!frontend.desktop_active);
    assert_eq!(frontend.foreground_changed(false), FrontendAction::Idle);
}
