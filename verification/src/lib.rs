//! The computing core of a set of status-bar tools: how they read system files
//! and command output, and how they render their status lines.
pub mod cpu;
pub mod dirs;
pub mod format;
pub mod notifier;
pub mod status;
pub mod text;
pub mod vpn;
pub mod wifi;
