//! Rules engine and synchronisation core of the Machiavelli card game.

pub mod card;
pub mod config;
pub mod game;
pub mod protocol;
pub mod sequence;
pub mod table;
pub mod text;
pub mod turn;

pub use card::{Card, Suit};
pub use config::Config;
pub use game::{game_to_bytes, load_game, LoadingError};
pub use sequence::Sequence;
pub use table::Table;
pub use text::{instructions, instructions_no_save, reset_style_string, situation_to_string};
pub use turn::NoMoreCards;
pub mod input;
