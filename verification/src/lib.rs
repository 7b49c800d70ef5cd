//! The runtime of an agentic command line tool, as far as it can be proved.
//!
//! - [`dreamer`]: the memory of a project, and the dreams that consolidate it;
//! - [`turn_service`]: a turn of a conversation, and the dream that may follow it;
//! - [`mao`]: a prompt that is split into tasks for several agents;
//! - [`conversation`] and [`config`]: what these have to do with models and settings;
//! - [`text`], [`paths`], [`clock`], [`sorting`] and [`json`]: what they are all built on.
//!
//! Nothing here touches the file system, the network or the clock. Where work of that kind comes
//! between decisions, a type such as [`dreamer::pass::DreamPass`] says what is to be done next,
//! and takes what came of it.
pub mod clock;
pub mod config;
pub mod conversation;
pub mod dreamer;
pub mod json;
pub mod mao;
pub mod paths;
pub mod sorting;
pub mod text;
pub mod turn_service;
