//! An interpreter for the eight-command tape language: text is lexed into
//! tokens, tokens are parsed into a tree of instructions, and the tree is
//! executed by a virtual machine over a circular tape of 256 byte cells.

pub mod lexing;
pub mod loading;
pub mod parsing;
pub mod virtual_machine;
