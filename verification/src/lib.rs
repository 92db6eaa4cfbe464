//! Game logic of "Far From Fatality": the reliable message channels of its
//! network layer, procedural room generation, collision resolution and the
//! decisions of the game systems, each with its contract.

pub mod payload;
pub mod packet;
pub mod random;
pub mod room;
pub mod slice_constructor;
pub mod ordered_keys;
pub mod reliable;
pub mod delivery;
pub mod reassembly;
pub mod collision;
pub mod tiles;
pub mod level;
pub mod enemy;
pub mod player;
pub mod network;
pub mod menus;
