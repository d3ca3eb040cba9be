//! Electronic mail messages (`.eml`) turned into document blocks.
//!
//! [`parse`] emits the subject as a heading, a paragraph with sender,
//! recipients and date, then the body. It prefers the plain text alternative; a
//! message that holds HTML alone is refused rather than shown as markup. Of a
//! multipart, a plain text part that cannot be decoded and a nested multipart
//! that fails are passed over; only a message without any text to show is an
//! error.

pub mod charset;
pub mod error;
pub mod headers;
pub mod laws;
pub mod message;
pub mod mime;
pub mod model;
pub mod text;
pub mod transfer;
pub mod words;

pub use error::ConvertError;
pub use headers::Headers;
pub use message::{parse, parse_with};
pub use model::{Block, Document, Inline, Style};
