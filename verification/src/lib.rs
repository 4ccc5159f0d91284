//! The verified core of a local bridge between a chat client and the GLM service.

pub mod clock;
pub mod console;
pub mod decimal;
pub mod doctor;
pub mod format;
pub mod history;
pub mod history_laws;
pub mod json;
pub mod log_lines;
pub mod log_view;
pub mod logger;
pub mod logger_laws;
pub mod proxy;
pub mod repair;
pub mod repair_laws;
pub mod rounding;
pub mod service;
pub mod settings;
pub mod state;
pub mod stats;
pub mod stream;
pub mod stream_laws;
pub mod table;
pub mod text;
pub mod utf8;
