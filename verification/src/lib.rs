pub mod app;
pub mod config;
pub mod hyprctl;
pub mod i18n;
pub mod model;
pub mod query;
pub mod snapshot;
pub mod text;
pub mod view;
