pub mod text;
pub mod checker;
pub mod parser;
pub mod positions;
pub mod prompt;
pub mod config;
pub mod api;
pub mod history;
pub mod session;
pub mod flow;
