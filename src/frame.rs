use vstd::prelude::*;

verus! {

/// The kind of a frame, read from the low four bits of its first header byte.
#[derive(Debug, Copy, Clone, PartialEq, Eq, Structural)]
pub enum Opcode {
    CONTINUE,
    TEXT,
    BINARY,
    CLOSE,
    PING,
    PONG,
}

/// The opcode that a four-bit value names, if any.
pub open spec fn opcode_of(nibble: u8) -> Option<Opcode> {
    if nibble == 0x0 {
        Some(Opcode::CONTINUE)
    } else if nibble == 0x1 {
        Some(Opcode::TEXT)
    } else if nibble == 0x2 {
        Some(Opcode::BINARY)
    } else if nibble == 0x8 {
        Some(Opcode::CLOSE)
    } else if nibble == 0x9 {
        Some(Opcode::PING)
    } else if nibble == 0xA {
        Some(Opcode::PONG)
    } else {
        None
    }
}

impl Opcode {
    /// Classifies a frame header by the low nibble of its first byte. A nibble
    /// that names no opcode is a protocol violation and gives `None`.
    pub fn parse(header: &[u8; 2]) -> (r: Option<Self>)
        ensures
            r == opcode_of(header[0] % 16),
    {
        let b = header[0];
        let nibble = b & 0b0000_1111;
        assert(b & 0x0f == b % 16) by (bit_vector);
        match nibble {
            0x0 => Some(Opcode::CONTINUE),
            0x1 => Some(Opcode::TEXT),
            0x2 => Some(Opcode::BINARY),
            0x8 => Some(Opcode::CLOSE),
            0x9 => Some(Opcode::PING),
            0xA => Some(Opcode::PONG),
            _ => None,
        }
    }
}

} // verus!
