//! The players of a game: who asks, and who guesses.

pub mod candidates;
mod computer;
pub mod filter;
mod player;

pub use self::computer::refine;
pub use self::computer::remaining_delay;
pub use self::computer::ComputerGuesser;
pub use self::computer::ComputerQuestioner;
pub use self::filter::retain_consistent;
pub use self::player::Guesser;
pub use self::player::Questioner;
