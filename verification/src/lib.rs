//! A symbol-resolving static linker, a small PowerPC instruction assembler,
//! a DOL executable-container patcher, and a plain-text symbol-map codec,
//! for splicing freshly compiled code into a shipped GameCube game.

pub mod bytes;
pub mod chars;
pub mod config;
pub mod demangle;
pub mod dol;
pub mod errors;
pub mod assembler;
pub mod framework_map;
pub mod key_val_print;
pub mod linker;
pub mod literal;
pub mod objects;
pub mod opt;
pub mod symtab;
pub mod virtual_file_system;
