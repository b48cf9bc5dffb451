//! A framework for Bulls and Cows (1A2B) games over any alphabet of letters.
//!
//! A [`Host`] holds a secret sequence of distinct letters and scores guesses
//! against it. A [`play::players::ComputerGuesser`] deduces the secret by
//! keeping the pool of every sequence that is still consistent with the
//! replies received so far.
//!
//! Every executable function of this crate is verified against the contract
//! written in its signature, but for the calls into other crates, which are
//! gathered in one module and taken on trust.

pub mod arrangements;
pub mod counting;
pub mod host;
pub mod letters;
pub mod outside;
pub mod parser;
pub mod play;
pub mod score;

pub use self::host::Host;
pub use self::host::HostError;
pub use self::letters::Letters;
