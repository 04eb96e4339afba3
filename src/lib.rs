pub mod builder;
pub mod config;
pub mod merge;
pub mod schema;
pub mod theorems;
