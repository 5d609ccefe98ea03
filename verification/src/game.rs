//! A small dungeon crawl: rooms joined by halls, curios that change the
//! player's health and gold, and the player's two commands.

pub mod curio;
pub mod player;
pub mod room;
