//! Mod selection for the NieR:Automata mod loader.
pub mod ini_model;
pub mod mod_files;
pub mod selection;
pub mod config;
pub mod startup;
pub mod win_path;
