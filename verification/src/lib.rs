//! The reading, command-line and tab logic of the Markview Markdown reader,
//! with contracts proved by Verus.
#![allow(unused_imports)]

pub mod text;
pub mod cli;
pub mod tabs;
pub mod paths;
pub mod anchor;
pub mod fonts;
pub mod export;
pub mod styles;
pub mod preferences;
pub mod benchmark;
pub mod search;
pub mod outline;
pub mod font_panel;
pub mod fonts_command;
pub mod keys;
pub mod font_dirs;
pub mod gestures;
