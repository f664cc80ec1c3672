//! Searching and trimming slices, splitting them into lines, and
//! reading the text format of N64 cheat-code lists into boot-time and
//! in-game code tables.

pub mod cheats;
pub mod hex;
pub mod laws;
pub mod subseq;

pub use subseq::{LineIterator, SliceSubsequence};
pub use cheats::{cheat_table_lens, parse_cheats, INVALID_CODE_LINE, INVALID_LINE, SUCCESS};
pub use hex::hex_to_u32;
