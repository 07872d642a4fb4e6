use vstd::prelude::*;

pub mod path;
pub mod table;
pub mod text;
pub mod store;
pub mod eager;
pub mod overlay;
pub mod numbers;
pub mod dice;
pub mod facade;
pub mod session;
pub mod history;
pub mod commands;
pub mod archive;
