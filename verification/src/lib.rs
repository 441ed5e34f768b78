pub mod application;
pub mod domain;
pub mod grouping;
pub mod markdown;
pub mod ports;
pub mod sqlite;
pub mod text;
pub mod utils;
