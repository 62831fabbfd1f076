use vstd::prelude::*;

verus! {

/// Every failure the node's logic can report.
#[derive(Debug, Clone, PartialEq, Eq)]
pub enum CustomError {
    /// A read would run past the end of a buffer, or the bytes do not
    /// form the record that was asked for.
    SerializedBufferIsInvalid,
    /// A block header whose hash is not below the target its `bits` encode.
    HeaderInvalidPoW,
    /// A header batch that does not link to the tip of the chain.
    HeaderNotLinked,
    /// A value that breaks a rule of the record it belongs to.
    Validation(String),
    /// The configuration file could not be opened.
    ConfigMissingFile,
    /// A configuration line is not of the form `KEY=VALUE`.
    ConfigInvalid,
    /// A required configuration value is absent, empty or zero.
    ConfigMissingValue,
    /// A configuration value could not be read as a number.
    ConfigErrorReadingValue,
    /// A wire message does not start with the network magic.
    FramingError,
    /// The checksum of a wire message does not match its payload.
    ChecksumMismatch,
    /// A wire message carries a command the node does not handle.
    UnknownCommand,
    /// The peer broke the handshake sequence.
    CannotHandshakeNode,
    /// No block is stored under the hash that was asked for.
    BlockNotFound,
    /// The active wallet cannot pay the outputs and the fee.
    InsufficientFunds,
    /// No wallet is active, or none has the key that was asked for.
    WalletNotFound,
    /// A sum of values that does not fit in the integers it is kept in.
    ValueOutOfRange,
}

impl CustomError {
    /// Whether the error drops one message and keeps the peer: so it is for
    /// a command that the node does not speak, and for no other error.
    pub fn is_soft(&self) -> (soft: bool)
        ensures
            soft == (*self == CustomError::UnknownCommand),
    {
        match self {
            CustomError::UnknownCommand => true,
            _ => false,
        }
    }

    /// A short text for the error, for logs and for the user.
    pub fn description(&self) -> (text: String)
        ensures
            text@ == self.description_text(),
    {
        match self {
            CustomError::SerializedBufferIsInvalid => String::from_str("Serialized buffer is invalid"),
            CustomError::HeaderInvalidPoW => String::from_str("Header does not satisfy its proof of work"),
            CustomError::HeaderNotLinked => String::from_str("Header does not follow the chain tip"),
            CustomError::Validation(text) => text.clone(),
            CustomError::ConfigMissingFile => String::from_str("Configuration file not found"),
            CustomError::ConfigInvalid => String::from_str("Configuration is invalid"),
            CustomError::ConfigMissingValue => String::from_str("Configuration value is missing"),
            CustomError::ConfigErrorReadingValue => String::from_str("Configuration value cannot be read"),
            CustomError::FramingError => String::from_str("Message does not carry the network magic"),
            CustomError::ChecksumMismatch => String::from_str("Message checksum does not match"),
            CustomError::UnknownCommand => String::from_str("Unknown command"),
            CustomError::CannotHandshakeNode => String::from_str("Cannot handshake with node"),
            CustomError::BlockNotFound => String::from_str("Block not found"),
            CustomError::InsufficientFunds => String::from_str("Insufficient funds"),
            CustomError::WalletNotFound => String::from_str("Wallet not found"),
            CustomError::ValueOutOfRange => String::from_str("Value out of range"),
        }
    }

    /// The text that `description` returns.
    pub open spec fn description_text(&self) -> Seq<char> {
        match self {
            CustomError::SerializedBufferIsInvalid => "Serialized buffer is invalid"@,
            CustomError::HeaderInvalidPoW => "Header does not satisfy its proof of work"@,
            CustomError::HeaderNotLinked => "Header does not follow the chain tip"@,
            CustomError::Validation(text) => text@,
            CustomError::ConfigMissingFile => "Configuration file not found"@,
            CustomError::ConfigInvalid => "Configuration is invalid"@,
            CustomError::ConfigMissingValue => "Configuration value is missing"@,
            CustomError::ConfigErrorReadingValue => "Configuration value cannot be read"@,
            CustomError::FramingError => "Message does not carry the network magic"@,
            CustomError::ChecksumMismatch => "Message checksum does not match"@,
            CustomError::UnknownCommand => "Unknown command"@,
            CustomError::CannotHandshakeNode => "Cannot handshake with node"@,
            CustomError::BlockNotFound => "Block not found"@,
            CustomError::InsufficientFunds => "Insufficient funds"@,
            CustomError::WalletNotFound => "Wallet not found"@,
            CustomError::ValueOutOfRange => "Value out of range"@,
        }
    }
}

} // verus!
