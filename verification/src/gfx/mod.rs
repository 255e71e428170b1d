//! Text consoles on linear framebuffers.
pub mod fb;
pub mod font;
pub mod screen;
