//! A verified interpreter core for Piet, a language whose programs are
//! bitmap images: maximal same-colored regions ("blocks") are the program
//! units, and the color transition crossed when moving between adjacent
//! blocks selects an operation on an integer stack.

pub mod blocks;
pub mod cmdconfig;
pub mod conn;
pub mod cpu;
pub mod interpreter;
pub mod machine;
pub mod numfmt;
pub mod segment;
