//! Game logic of the auto_claw client and its relay server: directions and
//! colours, views, tiles and boards, four-lane masks, the level file
//! tokenizer, writer and loader, keyboard input, the peer-to-peer wire
//! frames and connection set-up, the decisions of ally parties in zones,
//! the screen's position store, and the relay server's bookkeeping.

pub mod ability;
pub mod text;
pub mod numeral;
pub mod level;
pub mod roundtrip;
pub mod direction;
pub mod lanes;
pub mod view;
pub mod input;
pub mod wire;
pub mod signal;
pub mod handshake;
pub mod relay;
pub mod buffer;
pub mod party;
pub mod board;
pub mod screen;
pub mod zone;
pub mod loader;
pub mod enemies;
pub mod registry;
pub mod roster;
