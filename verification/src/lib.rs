//! The verified core of a multiplayer spaceship game server.
pub mod wire;
pub mod codec;
pub mod parts;
pub mod player;
pub mod storage7573;
pub mod world;
pub mod beamout;
pub mod websocket;
pub mod handshake;
pub mod session;
pub mod sessiond;
pub mod game;
