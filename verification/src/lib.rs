//! Core of an interactive terminal emulator: a restartable byte scanner,
//! a VT100/xterm byte-stream parser, the screen model it maintains, and
//! the small pure pieces around them (attribute word, key translation,
//! line editing, command splitting).

pub mod attr;
pub mod byte_scanner;
pub mod screen;
pub mod shell;
pub mod threaded_ref;
mod strutil;
pub mod input;
pub mod matcher;
pub mod readline;
pub mod vt100;
