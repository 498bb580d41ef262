//! A debate engine for several language models.

pub mod api;
pub mod calendar;
pub mod cli;
pub mod config;
pub mod debate;
pub mod history;
pub mod json;
pub mod number;
pub mod paint;
pub mod report;
pub mod rounds;
pub mod sse;
pub mod stream;
pub mod text;
