use vstd::prelude::*;

verus! {

/// Why a message from the wire, or a value on its way to it, was refused.
#[derive(Clone, Copy, Debug, PartialEq, Eq, Structural)]
pub enum WireError {
    /// The bytes stop before a field they announced.
    Truncated,
    /// Bytes are left over behind the last field.
    TrailingBytes,
    /// A text field is not UTF-8.
    NotUtf8,
    /// A body does not have the one length its operation fixes.
    WrongLength,
    /// A length or a count is above its cap.
    OverCap,
    /// A length that has to be positive is zero.
    Empty,
    /// A tag byte names nothing.
    UnknownTag,
    /// The peer does not know the file index it was asked for.
    UnknownIndex,
    /// The peer failed to read the file.
    PeerIo,
    /// The peer refused a read as over its cap.
    PeerCap,
    /// A relay ladder is announced without the relay being enabled.
    RelayNotEnabled,
    /// A relay URL does not parse.
    BadRelayUrl,
    /// An address is not JSON.
    BadAddress,
    /// A manifest is older than one already seen.
    Rollback,
    /// Bytes that should be a public key are none.
    BadKey,
    /// A signature does not verify under the share's authorship key.
    BadSignature,
}

impl WireError {
    pub open spec fn text(self) -> Seq<char> {
        match self {
            WireError::Truncated => "the bytes stop before a field they announced"@,
            WireError::TrailingBytes => "bytes are left over behind the last field"@,
            WireError::NotUtf8 => "a text field is not UTF-8"@,
            WireError::WrongLength => "the body has the wrong length"@,
            WireError::OverCap => "a length or a count is over its cap"@,
            WireError::Empty => "a length that has to be positive is zero"@,
            WireError::UnknownTag => "a tag byte names nothing"@,
            WireError::UnknownIndex => "the peer does not know that file"@,
            WireError::PeerIo => "the peer failed to read the file"@,
            WireError::PeerCap => "the peer refused a read as over its cap"@,
            WireError::RelayNotEnabled => "a relay ladder without the relay being enabled"@,
            WireError::BadRelayUrl => "a relay URL does not parse"@,
            WireError::BadAddress => "the address is not JSON"@,
            WireError::Rollback => "the listing is older than one already seen"@,
            WireError::BadKey => "the bytes are not a public key"@,
            WireError::BadSignature => "the signature does not verify under the share's key"@,
        }
    }

    /// What went wrong, in words.
    pub fn message(self) -> (text: &'static str)
        ensures
            text@ == self.text(),
    {
        match self {
            WireError::Truncated => "the bytes stop before a field they announced",
            WireError::TrailingBytes => "bytes are left over behind the last field",
            WireError::NotUtf8 => "a text field is not UTF-8",
            WireError::WrongLength => "the body has the wrong length",
            WireError::OverCap => "a length or a count is over its cap",
            WireError::Empty => "a length that has to be positive is zero",
            WireError::UnknownTag => "a tag byte names nothing",
            WireError::UnknownIndex => "the peer does not know that file",
            WireError::PeerIo => "the peer failed to read the file",
            WireError::PeerCap => "the peer refused a read as over its cap",
            WireError::RelayNotEnabled => "a relay ladder without the relay being enabled",
            WireError::BadRelayUrl => "a relay URL does not parse",
            WireError::BadAddress => "the address is not JSON",
            WireError::Rollback => "the listing is older than one already seen",
            WireError::BadKey => "the bytes are not a public key",
            WireError::BadSignature => "the signature does not verify under the share's key",
        }
    }
}

} // verus!
