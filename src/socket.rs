//! Client-side connection bookkeeping: connection tokens and the relay's version handshake.
use vstd::prelude::*;

verus! {

/// A process-unique identifier of one client-side connection.
#[derive(Clone, Copy, Debug, PartialEq, Eq, Hash, Structural)]
pub struct ConnectionToken(pub usize);

/// Hands out connection tokens in increasing order, so that none is ever reused.
pub struct TokenSource {
    next: usize,
}

impl TokenSource {
    /// The number that the next token will carry.
    pub closed spec fn upcoming(&self) -> usize {
        self.next
    }

    /// A source whose first token is `0`.
    pub fn new() -> (r: TokenSource)
        ensures
            r.upcoming() == 0,
    {
        TokenSource { next: 0 }
    }

    /// The next token, greater than every token handed out before, or `None` once the tokens
    /// are used up.
    pub fn next_token(&mut self) -> (r: Option<ConnectionToken>)
        ensures
            old(self).upcoming() < usize::MAX ==> r == Some(ConnectionToken(old(self).upcoming()))
                && final(self).upcoming() == old(self).upcoming() + 1,
            old(self).upcoming() == usize::MAX ==> r is None && final(self).upcoming()
                == old(self).upcoming(),
    {
        if self.next == usize::MAX {
            None
        } else {
            let token = ConnectionToken(self.next);
            self.next = self.next + 1;
            Some(token)
        }
    }
}

/// The first message that a relay sends on a new connection.
#[derive(Clone, Debug)]
pub enum VersionMessage {
    /// The connection closed before any message came.
    Missing,
    /// A message other than a binary one came.
    NotBinary,
    /// A binary message came, with these bytes.
    Binary(Vec<u8>),
}

/// Why the version handshake with a relay failed.
#[derive(Clone, Copy, Debug, PartialEq, Eq, Structural)]
pub enum VersionError {
    /// The relay sent no version packet.
    NoVersionPacket,
    /// The version packet is not four bytes of binary data.
    InvalidVersionPacket,
    /// The relay speaks an older protocol version.
    RelayIsTooOld,
    /// The relay speaks a newer protocol version.
    RelayIsTooNew,
}

/// The outcome of the handshake on the version message `m`, against protocol version `ours`.
pub open spec fn handshake(m: VersionMessage, ours: u32) -> Result<u32, VersionError> {
    match m {
        VersionMessage::Missing => Err(VersionError::NoVersionPacket),
        VersionMessage::NotBinary => Err(VersionError::InvalidVersionPacket),
        VersionMessage::Binary(b) => if b@.len() != 4 {
            Err(VersionError::InvalidVersionPacket)
        } else {
            let v = crate::protocol::u32_from(b@[0], b@[1], b@[2], b@[3]);
            if v < ours {
                Err(VersionError::RelayIsTooOld)
            } else if v > ours {
                Err(VersionError::RelayIsTooNew)
            } else {
                Ok(v)
            }
        },
    }
}

/// Checks the relay's version message, a little-endian `u32`, against protocol version `ours`.
pub fn check_version(m: &VersionMessage, ours: u32) -> (r: Result<u32, VersionError>)
    ensures
        r == handshake(*m, ours),
{
    match m {
        VersionMessage::Missing => Err(VersionError::NoVersionPacket),
        VersionMessage::NotBinary => Err(VersionError::InvalidVersionPacket),
        VersionMessage::Binary(b) => {
            if b.len() != 4 {
                return Err(VersionError::InvalidVersionPacket);
            }
            let v = (b[0] as u32) | ((b[1] as u32) << 8u32) | ((b[2] as u32) << 16u32) | ((
            b[3] as u32) << 24u32);
            if v < ours {
                Err(VersionError::RelayIsTooOld)
            } else if v > ours {
                Err(VersionError::RelayIsTooNew)
            } else {
                Ok(v)
            }
        },
    }
}

} // verus!
