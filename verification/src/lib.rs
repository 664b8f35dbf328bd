//! Game logic of a small factory-and-porters game: item stacks and their
//! transfers, costs, porter routing, path segment sprites, slot drag and
//! drop, the hotbar and the menus' state machines.

pub mod menus;
pub mod pathfinding;
pub mod inventory;
pub mod items;
pub mod logistics;
pub mod random;
pub mod porting;
pub mod path_sprite;
pub mod slots;
pub mod hotbar;
pub mod naming;
pub mod selection;
pub mod foraging;
pub mod profession;
pub mod manifest;
pub mod player;
pub mod compendium;
