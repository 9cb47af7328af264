pub mod parse;
pub mod tile;
pub mod validate;

pub use parse::{parse_hand, parse_hand_with_aka, ParseError, ParsedHand};
pub use tile::{Honor, Suit, Tile};
pub use validate::{to_counts, validate_hand, TileCounts, ValidationError};
