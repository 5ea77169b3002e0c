//! Core of a virtual game-console emulator: paged virtual memory, a small
//! interpreter CPU, an optimised multi-core CPU model, game packages, their
//! installation and the game library, and the decisions behind the on-screen
//! gamepad, the screen layout and the sound registry.
pub mod memory;
pub mod cpu;
pub mod cpu_optimized;
pub mod strmap;
pub mod text;
pub mod parse;
pub mod package;
pub mod installer;
pub mod library;
pub mod audio;
pub mod gamepad;
pub mod responsive;
pub mod screens;
