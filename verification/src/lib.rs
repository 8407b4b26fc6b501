//! TinyTicker: the logic of a floating desktop timer, verified.

pub mod anim;
pub mod app;
pub mod audio;
pub mod bits;
pub mod bus;
pub mod bytes;
pub mod clock;
pub mod config;
pub mod deflate;
pub mod dial;
pub mod display;
pub mod effect;
pub mod flow;
pub mod font8x8;
pub mod fonts;
pub mod frames;
pub mod gif;
pub mod icon;
pub mod inflate;
pub mod ipc;
pub mod lang;
pub mod lzw;
pub mod mask;
pub mod motion;
pub mod parse;
pub mod png;
pub mod render;
pub mod settings;
pub mod sine;
pub mod single;
pub mod strings;
pub mod sysinfo;
pub mod text;
pub mod textsrc;
pub mod timer;
pub mod tone;
pub mod tray;
