use wovenhat::keyboard::Key;
use wovenhat::shell::{
    format_hex_u64, format_i64, format_u64, is_mnt_child, lowercase, shell_parent_path, shell_resolve, split_command,
    touches_mnt, Echo, Shell, ShellState,
};

#[test]
fn command_line_editing() {
    let mut shell = Shell::new();
    assert_eq!(shell.handle_key(Key::Char('l')), Echo::Character('l'));
    assert_eq!(shell.handle_key(Key::Char('s')), Echo::Character('s'));
    assert_eq!(shell.handle_key(Key::Char('\u{7}')), Echo::Nothing);
    assert_eq!(shell.handle_key(Key::Char('é')), Echo::Nothing);
    assert_eq!(shell.handle_key(Key::Backspace), Echo::Erase);
    assert_eq!(shell.command_line(), b"l".to_vec());
    assert_eq!(shell.handle_key(Key::Enter), Echo::Submit);
    shell.finish();
    assert_eq!(shell.handle_key(Key::Backspace), Echo::Nothing);
    for _ in 0..128 {
        assert_eq!(shell.handle_key(Key::Char('x')), Echo::Character('x'));
    }
    assert_eq!(shell.handle_key(Key::Char('x')), Echo::Nothing);
}

#[test]
fn commands_split_at_whitespace() {
    let line = b"  mkdir   /tmp/a b  ";
    let ((vs, ve), (rs, re)) = split_command(line);
    assert_eq!(&line[vs..ve], b"mkdir");
    assert_eq!(&line[rs..re], b"/tmp/a b");
    let ((vs, ve), (rs, re)) = split_command(b"help");
    assert_eq!((vs, ve, rs, re), (0, 4, 4, 4));
    let ((vs, ve), (rs, re)) = split_command(b"   ");
    assert_eq!(ve - vs, 0);
    assert_eq!(re - rs, 0);
}

#[test]
fn verbs_are_lower_cased() {
    assert_eq!(lowercase(b"LS"), b"ls".to_vec());
    assert_eq!(lowercase(b"Cat-1"), b"cat-1".to_vec());
    let long = [b'A'; 33];
    assert_eq!(lowercase(&long), long.to_vec());
}

#[test]
fn mount_paths() {
    assert!(touches_mnt(b"/mnt"));
    assert!(touches_mnt(b"/mnt/a"));
    assert!(!touches_mnt(b"/mnta"));
    assert!(is_mnt_child(b"/mnt/"));
    assert!(!is_mnt_child(b"/mnt"));
}

#[test]
fn parent_paths() {
    assert_eq!(shell_parent_path(b"/a/b"), Some(b"/a".to_vec()));
    assert_eq!(shell_parent_path(b"/a"), Some(b"/".to_vec()));
    assert_eq!(shell_parent_path(b"/"), None);
    assert_eq!(shell_parent_path(b"a/b"), None);
}

#[test]
fn paths_resolve_against_the_working_directory() {
    assert_eq!(shell_resolve(b"b/../c/./d", b"/a"), b"/a/c/d".to_vec());
    assert_eq!(shell_resolve(b"x", b"/"), b"/x".to_vec());
    assert_eq!(shell_resolve(b"/../..", b"/a"), b"/".to_vec());
    assert_eq!(shell_resolve(b"", b"/home"), b"/home".to_vec());
    let mut state = ShellState::new();
    assert_eq!(state.cwd(), b"/".to_vec());
    assert!(state.set_cwd(b"/tmp"));
    assert_eq!(state.cwd(), b"/tmp".to_vec());
    assert!(!state.set_cwd(b""));
    assert!(!state.set_cwd(&[b'/'; 128]));
    assert_eq!(state.cwd(), b"/tmp".to_vec());
}

#[test]
fn numbers_print() {
    assert_eq!(format_u64(0), b"0".to_vec());
    assert_eq!(format_u64(1234567890), b"1234567890".to_vec());
    assert_eq!(format_u64(u64::MAX), b"18446744073709551615".to_vec());
    assert_eq!(format_i64(-42), b"-42".to_vec());
    assert_eq!(format_i64(i64::MIN), b"-9223372036854775808".to_vec());
    assert_eq!(format_hex_u64(0), b"0x0".to_vec());
    assert_eq!(format_hex_u64(0xdead_beef), b"0xdeadbeef".to_vec());
}
