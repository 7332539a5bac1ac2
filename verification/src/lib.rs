//! Zone bookkeeping, wire protocol and configuration logic of a video
//! wallpaper daemon for wlroots compositors, with its contracts.
pub mod geometry;
pub mod text;
pub mod order;
pub mod registry;
pub mod zones;
pub mod settings;
pub mod command;
pub mod response;
pub mod daemon;
pub mod playback;
pub mod activation;
pub mod gui;
pub mod outputs;
pub mod config;
pub mod probe;
