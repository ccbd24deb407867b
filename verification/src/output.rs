//! What is shown to the person at the terminal.

pub mod text;
pub mod outside;
pub mod order;
pub mod help;
