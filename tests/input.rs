use ft_ality::input::{decode_escape_sequence_with, decode_one_token_with, escape_tail_complete};

fn tok(first: u8, tail: &[u8]) -> Option<String> {
    decode_one_token_with(first, tail)
}

#[test]
fn control_bytes_are_ctrl_letters() {
    assert_eq!(tok(3, &[]), Some("ctrl-c".to_string()));
    assert_eq!(tok(1, &[]), Some("ctrl-a".to_string()));
    assert_eq!(tok(26, &[]), Some("ctrl-z".to_string()));
    assert_eq!(tok(13, &[]), Some("ctrl-m".to_string()));
}

#[test]
fn plain_keys() {
    assert_eq!(tok(b' ', &[]), Some("space".to_string()));
    assert_eq!(tok(0x7f, &[]), Some("backspace".to_string()));
    assert_eq!(tok(b'q', &[]), Some("q".to_string()));
    assert_eq!(tok(b'Q', &[]), Some("shift-q".to_string()));
    assert_eq!(tok(b'[', &[]), Some("[".to_string()));
    assert_eq!(tok(0x80, &[]), None);
    assert_eq!(tok(0, &[]), None);
}

#[test]
fn arrows_and_modifiers() {
    assert_eq!(tok(0x1b, b"[A"), Some("up".to_string()));
    assert_eq!(tok(0x1b, b"[B"), Some("down".to_string()));
    assert_eq!(tok(0x1b, b"[1;2C"), Some("shift-right".to_string()));
    assert_eq!(tok(0x1b, b"[1;5D"), Some("ctrl-left".to_string()));
    assert_eq!(tok(0x1b, b"[1;8A"), Some("shift-alt-ctrl-up".to_string()));
    assert_eq!(tok(0x1b, b"[1;+3A"), Some("alt-up".to_string()));
    assert_eq!(tok(0x1b, b"[1;300A"), Some("up".to_string()));
}

#[test]
fn delete_and_other_tildes() {
    assert_eq!(decode_escape_sequence_with(b"[3~"), "delete");
    assert_eq!(decode_escape_sequence_with(b"[3;5~"), "ctrl-delete");
    assert_eq!(decode_escape_sequence_with(b"[2~"), "esc");
    assert_eq!(decode_escape_sequence_with(b"[1;5@"), "esc");
}

#[test]
fn alt_and_bare_escape() {
    assert_eq!(decode_escape_sequence_with(b"x"), "alt-x");
    assert_eq!(decode_escape_sequence_with(b"X"), "alt-x");
    assert_eq!(decode_escape_sequence_with(b""), "esc");
    assert_eq!(decode_escape_sequence_with(&[0x01]), "esc");
    assert_eq!(decode_escape_sequence_with(b"[12345"), "esc");
    assert_eq!(decode_escape_sequence_with(b"[123456A"), "esc");
    assert_eq!(decode_escape_sequence_with(b"[12345A"), "up");
}

#[test]
fn escape_reading_stops_when_decided() {
    assert!(!escape_tail_complete(b""));
    assert!(escape_tail_complete(b"x"));
    assert!(!escape_tail_complete(b"["));
    assert!(!escape_tail_complete(b"[1;5"));
    assert!(escape_tail_complete(b"[1;5A"));
    assert!(escape_tail_complete(b"[3~"));
    assert!(escape_tail_complete(b"[123456"));
}
