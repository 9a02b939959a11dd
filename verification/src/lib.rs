//! Logic of a keyboard-first image viewer.
pub mod binary64;
pub mod cache;
pub mod canvas;
pub mod decimal;
pub mod decode;
pub mod delete;
pub mod export;
pub mod frame;
pub mod input;
pub mod listing;
pub mod loader;
pub mod metadata;
pub mod ordering;
pub mod path;
pub mod print;
pub mod rounding;
pub mod text;
pub mod viewer;
