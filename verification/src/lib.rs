//! Verified core of a desktop Slack wrapper: file naming for downloads,
//! notification activation bookkeeping, URL policy and badge rendering.

pub mod text;
pub mod downloads;
pub mod notifications;
pub mod security;
pub mod pending;
pub mod overlay;
pub mod icons;
pub mod platform;
