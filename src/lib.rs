pub mod armature;
pub mod forest;
pub mod interaction;
