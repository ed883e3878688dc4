//! A secure cookie codec: parses an HTTP `Cookie` header into key/value
//! data, verifying and stripping per-value signatures, and renders signed,
//! percent-encoded `Set-Cookie` header values.

pub mod cookie;
pub mod parser;
pub mod response;
pub mod json;
pub mod laws;
pub mod pct;
pub mod signer;
pub mod sorted;
pub mod text;

pub use crate::cookie::Cookie;
pub use crate::parser::CookieParser;
pub use crate::parser::CookieSettings;
pub use crate::response::HeaderCollection;
pub use crate::response::SetCookie;

