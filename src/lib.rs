pub mod command;
pub mod config;
pub mod controller;
pub mod game;
