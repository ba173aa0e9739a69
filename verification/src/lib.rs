//! Core of `awm`, a manager for the Apple aerial wallpapers.

pub mod app;
pub mod catalog;
pub mod downloader;
pub mod json;
pub mod locate;
pub mod manifest;
pub mod naming;
pub mod paths;
pub mod screen;
pub mod strings;
pub mod text;
