pub mod args;
pub mod catalog;
pub mod cli;
pub mod config;
pub mod decimal;
pub mod laws;
pub mod order;
pub mod path_search;
pub mod text;
pub mod zsh;
