pub mod text;
pub mod command;
pub mod config;
pub mod ordering;
pub mod icon;
pub mod import_export;
pub mod entries;
pub mod tray;
pub mod platform;
