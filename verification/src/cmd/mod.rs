//! What each command decides and prints. Opening devices, reading them and
//! writing files is the caller's part.

pub mod carve;
pub mod devices;
pub mod image;
pub mod laws;
pub mod list_deleted;
pub mod mobile;
pub mod preview;
pub mod restore;
pub mod score;
pub mod smoke;
pub mod sqlite;
pub mod verify;
