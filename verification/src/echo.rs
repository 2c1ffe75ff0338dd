//! The interactive byte-echo protocol, as a pure state machine.
//!
//! The surrounding kernel polls its UART one byte at a time and answers:
//! backspace erases the previous cell, CR and LF emit CRLF, a CSI arrow
//! sequence (`ESC [ A..D`) is reported as an arrow key, and every other byte
//! is echoed verbatim. Because the reader may observe an escape sequence
//! split across poll iterations, the pending prefix is carried in an
//! explicit state; the caller feeds bytes in and performs the answers.

use vstd::prelude::*;

verus! {

/// ASCII backspace.
pub const BS: u8 = 8;

/// ASCII line feed.
pub const LF: u8 = 10;

/// ASCII carriage return.
pub const CR: u8 = 13;

/// ASCII escape.
pub const ESC: u8 = 27;

/// ASCII `[`, the second byte of a CSI sequence.
pub const CSI_BRACKET: u8 = 91;

/// Where the reader stands inside a possible escape sequence.
#[derive(Clone, Copy, Debug, PartialEq, Eq, Structural)]
pub enum EchoState {
    /// Not inside an escape sequence.
    Normal,
    /// An `ESC` byte has been read; a `[` would open a CSI sequence.
    SawEsc,
    /// `ESC [` has been read; the next byte selects the key.
    SawCsi,
}

/// An arrow key named by a complete CSI sequence.
#[derive(Clone, Copy, Debug, PartialEq, Eq, Structural)]
pub enum ArrowKey {
    Up,
    Down,
    Right,
    Left,
}

/// What the echo loop answers to one input byte.
#[derive(Clone, Copy, Debug, PartialEq, Eq, Structural)]
pub enum EchoAction {
    /// Emit backspace, space, backspace to erase the previous cell.
    Erase,
    /// Emit CRLF.
    Newline,
    /// Report the named arrow key.
    Arrow(ArrowKey),
    /// Report an unrecognised CSI sequence.
    Unknown,
    /// Echo the byte back verbatim.
    Echo(u8),
    /// Emit nothing: the byte extends a pending escape sequence, or ends a
    /// sequence that the protocol drops silently.
    Silent,
}

/// The transition of the echo protocol on one input byte.
pub open spec fn spec_echo_step(state: EchoState, byte: u8) -> (EchoState, EchoAction) {
    match state {
        EchoState::Normal => {
            if byte == BS {
                (EchoState::Normal, EchoAction::Erase)
            } else if byte == LF || byte == CR {
                (EchoState::Normal, EchoAction::Newline)
            } else if byte == ESC {
                (EchoState::SawEsc, EchoAction::Silent)
            } else {
                (EchoState::Normal, EchoAction::Echo(byte))
            }
        },
        EchoState::SawEsc => {
            if byte == CSI_BRACKET {
                (EchoState::SawCsi, EchoAction::Silent)
            } else {
                (EchoState::Normal, EchoAction::Silent)
            }
        },
        EchoState::SawCsi => {
            if byte == 65 {
                (EchoState::Normal, EchoAction::Arrow(ArrowKey::Up))
            } else if byte == 66 {
                (EchoState::Normal, EchoAction::Arrow(ArrowKey::Down))
            } else if byte == 67 {
                (EchoState::Normal, EchoAction::Arrow(ArrowKey::Right))
            } else if byte == 68 {
                (EchoState::Normal, EchoAction::Arrow(ArrowKey::Left))
            } else {
                (EchoState::Normal, EchoAction::Unknown)
            }
        },
    }
}

/// Feed one input byte to the echo protocol: returns the next state and the
/// action to perform.
pub fn echo_step(state: EchoState, byte: u8) -> (r: (EchoState, EchoAction))
    ensures
        r == spec_echo_step(state, byte),
{
    match state {
        EchoState::Normal => {
            if byte == BS {
                (EchoState::Normal, EchoAction::Erase)
            } else if byte == LF || byte == CR {
                (EchoState::Normal, EchoAction::Newline)
            } else if byte == ESC {
                (EchoState::SawEsc, EchoAction::Silent)
            } else {
                (EchoState::Normal, EchoAction::Echo(byte))
            }
        },
        EchoState::SawEsc => {
            if byte == CSI_BRACKET {
                (EchoState::SawCsi, EchoAction::Silent)
            } else {
                (EchoState::Normal, EchoAction::Silent)
            }
        },
        EchoState::SawCsi => {
            if byte == 65 {
                (EchoState::Normal, EchoAction::Arrow(ArrowKey::Up))
            } else if byte == 66 {
                (EchoState::Normal, EchoAction::Arrow(ArrowKey::Down))
            } else if byte == 67 {
                (EchoState::Normal, EchoAction::Arrow(ArrowKey::Right))
            } else if byte == 68 {
                (EchoState::Normal, EchoAction::Arrow(ArrowKey::Left))
            } else {
                (EchoState::Normal, EchoAction::Unknown)
            }
        },
    }
}

/// The bytes an action sends back over the wire. Arrow keys and
/// unrecognised sequences are reported with message text chosen by the
/// caller, so they emit no protocol bytes here.
pub open spec fn spec_action_bytes(a: EchoAction) -> Seq<u8> {
    match a {
        EchoAction::Erase => seq![BS, 32u8, BS],
        EchoAction::Newline => seq![CR, LF],
        EchoAction::Echo(b) => seq![b],
        _ => Seq::empty(),
    }
}

/// The protocol bytes to emit for an action: `BS SPACE BS` for an erase,
/// `CR LF` for a newline, the byte itself for an echo, nothing otherwise.
pub fn action_bytes(a: EchoAction) -> (v: Vec<u8>)
    ensures
        v@ == spec_action_bytes(a),
{
    let mut v: Vec<u8> = Vec::new();
    match a {
        EchoAction::Erase => {
            v.push(BS);
            v.push(32);
            v.push(BS);
        },
        EchoAction::Newline => {
            v.push(CR);
            v.push(LF);
        },
        EchoAction::Echo(b) => {
            v.push(b);
        },
        _ => {},
    }
    proof {
        assert(v@ =~= spec_action_bytes(a));
    }
    v
}

} // verus!
