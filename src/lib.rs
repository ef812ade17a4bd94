pub mod config;
pub mod text;
pub mod inventory;
pub mod planner;
pub mod executor;
pub mod overlay;
pub mod magic;
pub mod granary;
pub mod ratoon;
pub mod hymofs;
pub mod umount;
pub mod storage;
pub mod state;
pub mod modules;
