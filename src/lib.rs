//! Text transformation and line diff engine: column splitting, joining,
//! pattern filtering, line removal and a line-level diff with move detection.

pub mod columns;
pub mod diff;
pub mod filter;
pub mod pattern;
pub mod processor;
pub mod remover;
pub mod settings;
pub mod text;
