//! Sonar: the verified core of a small conversation-mapping service.

pub mod json;
pub mod mapdata;
pub mod models;
pub mod order;
pub mod questioner;
pub mod store;
pub mod text;
pub mod ui;
