//! Configurable, round-trippable string escaping.
//!
//! An [`Escape`] value holds a validated escape configuration: a marker
//! character, the set of characters that must never appear unmarked, an
//! ordered translation table of mnemonic codes, and an optional predicate
//! that sends further characters to a numeric code-point notation.  The
//! engine offers encoding ([`Escape::escape`]), its lossless inverse
//! ([`Escape::unescape`]), and escape-aware scanning ([`Escape::split`],
//! [`Escape::is_escaped`]).

pub mod config;
pub mod decode;
pub mod encode;
pub mod ext;
pub mod hex;
pub mod laws;
pub mod model;
pub mod scan;

pub use config::CharPred;
pub use config::ConfigError;
pub use config::Escape;
pub use config::IsControl;
pub use laws::lemma_escape_no_op;
pub use laws::lemma_round_trip;
pub use laws::unambiguous;
pub use laws::lemma_unescape_no_op;
pub use model::EscapeModel;
pub use scan::is_sep;
