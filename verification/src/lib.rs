//! Verified core of a linter driver that runs PHP CS Fixer, PHPStan and a
//! project's tests inside a Docker container on the PHP files that git
//! reports as modified.
pub mod command;
pub mod config;
pub mod file;
pub mod parallel;
pub mod pipeline;
pub mod text;
pub mod tui;
pub mod updater;
