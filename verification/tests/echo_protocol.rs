//! The byte-echo protocol: plain bytes echo, control bytes answer their
//! sequences, and CSI arrow sequences survive being split across polls.

use page_alloc::echo::{action_bytes, echo_step, ArrowKey, EchoAction, EchoState};

#[test]
fn plain_bytes_echo_verbatim() {
    let (st, act) = echo_step(EchoState::Normal, b'x');
    assert_eq!(st, EchoState::Normal);
    assert_eq!(act, EchoAction::Echo(b'x'));
    assert_eq!(action_bytes(act), vec![b'x']);
}

#[test]
fn backspace_erases_cell() {
    let (st, act) = echo_step(EchoState::Normal, 8);
    assert_eq!(st, EchoState::Normal);
    assert_eq!(act, EchoAction::Erase);
    assert_eq!(action_bytes(act), vec![8, 32, 8]);
}

#[test]
fn cr_and_lf_emit_crlf() {
    for b in [10u8, 13u8] {
        let (st, act) = echo_step(EchoState::Normal, b);
        assert_eq!(st, EchoState::Normal);
        assert_eq!(act, EchoAction::Newline);
        assert_eq!(action_bytes(act), vec![13, 10]);
    }
}

#[test]
fn arrow_sequences_dispatch() {
    let cases = [
        (b'A', ArrowKey::Up),
        (b'B', ArrowKey::Down),
        (b'C', ArrowKey::Right),
        (b'D', ArrowKey::Left),
    ];
    for (b, key) in cases {
        let (st, act) = echo_step(EchoState::Normal, 0x1b);
        assert_eq!(st, EchoState::SawEsc);
        assert_eq!(act, EchoAction::Silent);
        let (st, act) = echo_step(st, 0x5b);
        assert_eq!(st, EchoState::SawCsi);
        assert_eq!(act, EchoAction::Silent);
        let (st, act) = echo_step(st, b);
        assert_eq!(st, EchoState::Normal);
        assert_eq!(act, EchoAction::Arrow(key));
        assert_eq!(action_bytes(act), Vec::<u8>::new());
    }
}

#[test]
fn unknown_csi_byte_reported() {
    let (st, _) = echo_step(EchoState::Normal, 0x1b);
    let (st, _) = echo_step(st, 0x5b);
    let (st, act) = echo_step(st, b'Z');
    assert_eq!(st, EchoState::Normal);
    assert_eq!(act, EchoAction::Unknown);
}

#[test]
fn escape_without_bracket_is_dropped() {
    let (st, act) = echo_step(EchoState::Normal, 0x1b);
    assert_eq!(st, EchoState::SawEsc);
    assert_eq!(act, EchoAction::Silent);
    let (st, act) = echo_step(st, b'q');
    assert_eq!(st, EchoState::Normal);
    assert_eq!(act, EchoAction::Silent);
    // The next byte is handled normally again.
    let (st, act) = echo_step(st, b'q');
    assert_eq!(st, EchoState::Normal);
    assert_eq!(act, EchoAction::Echo(b'q'));
}
