pub mod config;
pub mod error;
pub mod models;
pub mod myutils;
pub mod recognize;
