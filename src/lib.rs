//! A music-server command-line client's library: the sixel encoder that
//! shows album art in a terminal, and the parsing and formatting behind
//! the command-line front end.

pub mod sixel;
pub mod decimal;

pub mod ansi;
pub mod config;
pub mod now_playing;
pub mod queue;
pub mod seek;
pub mod status;
pub mod table;
pub mod tags;
pub mod text;
