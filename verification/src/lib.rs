//! The logic of a save-file achievement unlocker: the text and icon catalogs,
//! the index masks that filter what the list shows, and the state that the
//! window's callbacks drive.

pub mod catalog;
pub mod masks;
pub mod order;
pub mod text;
pub mod unlocker;
