//! Codec for the binary cookie-jar file format used by the macOS/WebKit
//! cookie store: a container of pages, each page a table of fixed-layout
//! cookie records. Beside it, the small pieces of a game-client launcher
//! that decide rather than do: its settings file, its configuration, the
//! port lines of a client's output, the bundle identifier of a profile and
//! the download address in an install script.
pub mod bytes;
pub mod bundle;
pub mod client;
pub mod config;
pub mod container;
pub mod cookie;
pub mod error;
pub mod installer;
pub mod laws;
pub mod page;
pub mod pattern;
pub mod session;
pub mod settings;
pub mod time;

pub use container::BinaryCookies;
pub use cookie::{Cookie, CookieFlags};
pub use error::FormatError;
pub use page::Page;
pub use time::{to_cocoa_timestamp, to_unix_timestamp, UnixTime};
