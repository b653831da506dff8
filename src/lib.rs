pub mod block;
pub mod collision;
pub mod coords;
pub mod inventory;
pub mod meshgen;
pub mod player;
pub mod raycast;
pub mod world;
