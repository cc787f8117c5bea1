use vstd::prelude::*;

verus! {

/// What can go wrong in one operation on a store.
#[derive(PartialEq, Eq, Structural, Clone, Copy, Debug)]
pub enum StoreError {
    /// The key holds fewer than 32 bytes.
    KeyTooShort,
    /// The operating system's random source failed.
    RandomSourceError,
    /// The cipher refused to encrypt the message.
    CryptoSealError,
    /// An envelope did not authenticate under the key (wrong key, tampered or truncated).
    AuthFailure,
    /// Decrypted bytes are not text of the expected shape.
    EncodingError,
    /// Reading or writing the file failed.
    IoError,
    /// An envelope's delimiter was not found before the end of the file.
    FramingError,
    /// The account name is already in the header.
    DuplicateAccount,
    /// The account name is not in the header.
    AccountNotFound,
    /// A string handed in from outside is not valid text.
    ArgumentEncodingError,
}

} // verus!
