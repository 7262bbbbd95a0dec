//! A 128-bit identifier with two textual forms: the hyphenated hexadecimal
//! form and a compact lowercase Crockford base-32 form.

pub mod bytes;
pub mod compact;
pub mod hex;
pub mod laws;
pub mod order;
pub mod resolver;
pub mod uuid32;

pub use uuid32::{Uuid32, Uuid32Error};
