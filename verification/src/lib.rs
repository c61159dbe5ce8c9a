//! Verified core of a desktop tool that manages a Minecraft server on a
//! remote machine over SSH.
pub mod install;
pub mod profiles;
pub mod properties;
pub mod ssh;
pub mod text;
pub mod versions;
