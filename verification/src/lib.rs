//! netopo: local network topology discovery, verified with Verus.
pub mod ascii;
pub mod cli;
pub mod connection_tracker;
pub mod data_manager;
pub mod graph_builder;
pub mod index;
pub mod labels;
pub mod layout;
pub mod order;
pub mod proc_ipv6;
pub mod scanner;
pub mod text;
pub mod tui;
pub mod visualization;
