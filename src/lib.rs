//! A byte-exact scanner for the header section of an email message.
//!
//! Each header is kept as three spans of the original text (name,
//! separator, value) together with a small set of flags recording how
//! far its framing departs from the canonical form.
use vstd::prelude::*;

pub mod conformance;
pub mod error;
pub mod header;
pub mod model;

pub use conformance::{ConformanceFlag, HeaderConformance};
pub use error::MailParsingError;
pub use header::Header;
