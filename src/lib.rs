//! An encrypted record store held in one byte buffer: an encrypted header that
//! lists account names, followed by one encrypted record per account.

pub mod error;
pub mod padding;
pub mod framing;
pub mod envelope;
pub mod text;
pub mod store;
pub mod laws;

pub use error::StoreError;
pub use store::{
    add_account, create_password_file, delete_account, modify_account, read_envelope_text, read_header,
    read_message,
};
