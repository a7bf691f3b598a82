pub mod atlas;
pub mod buffer;
pub mod pack;
