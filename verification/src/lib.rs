//! The writing surface of a terminal Markdown editor.

pub mod app;
pub mod behaviour;
pub mod cells;
pub mod config;
pub mod decorated;
pub mod headings;
pub mod indent;
pub mod layout;
pub mod mapping;
pub mod metrics;
pub mod navigate;
pub mod panels;
pub mod paths;
pub mod render;
pub mod session;
pub mod style;
pub mod text;
pub mod visual;
pub mod workspace;
pub mod wrap;
