//! RelayDeck: the rules of a local gateway for OpenAI-compatible upstreams.

pub mod text;
pub mod order;
pub mod json;
pub mod clock;
pub mod ids;
pub mod error;
pub mod models;
pub mod providers;
pub mod routing;
pub mod gateway;
pub mod exchange;
pub mod discovery;
pub mod health;
pub mod settings;
pub mod dashboard;
pub mod toml;
pub mod files;
pub mod backups;
pub mod codex;
pub mod rollout;
pub mod sessions;
pub mod home;
pub mod threads;

pub use error::RelayError;
