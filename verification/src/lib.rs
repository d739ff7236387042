pub mod cli;
pub mod executor;
pub mod installer;
pub mod text;
pub mod ranges;
pub mod requirement;
pub mod gemfile;
pub mod index;
pub mod lockfile;
pub mod resolver;
pub mod version;
