//! Storage and analytics engine for lottery draw results, kept per house.

pub mod text;
pub mod parse;
pub mod date;
pub mod error;
pub mod naming;
pub mod model;
pub mod draws;
pub mod ingest;
pub mod groups;
pub mod analytics;
pub mod database;
pub mod db;
pub mod statements;
pub mod web;
