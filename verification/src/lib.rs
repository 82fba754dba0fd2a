pub mod api;
pub mod app;
pub mod auth;
pub mod db;
pub mod media;
pub mod model;
pub mod text;
