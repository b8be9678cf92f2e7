//! Core logic of a system monitor for small USB IPS displays: RGB565
//! framebuffer raster primitives, theme/configuration rules, sensor
//! register decoding and the Rev A wire protocol.

pub mod catalog;
pub mod cli;
pub mod config;
pub mod daemon;
pub mod display;
pub mod fmt;
pub mod framebuf;
pub mod port;
pub mod preview;
pub mod render;
pub mod hwio;
pub mod sensors;
pub mod settings;
pub mod superio;
pub mod text;
pub mod widgets;
pub mod yaml;
