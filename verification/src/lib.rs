//! Compilation, formatting and linting of LuauX sources for the Instar host.
pub mod protocol;
pub mod json;
pub mod text;
pub mod markup;
pub mod settings;
pub mod outside;
pub mod source;
pub mod formatter;
pub mod tiling;
pub mod style;
pub mod compiler;
pub mod linter;
pub mod graft;
