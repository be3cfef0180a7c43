//! Message-processing logic of a Discord bot: the dot remover, the starboard,
//! and the helpers behind its text commands.

pub mod bingo;
pub mod dot_remover;
pub mod eval;
pub mod latex;
pub mod star;
pub mod starboard;
pub mod text;
