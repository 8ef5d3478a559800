use vstd::prelude::*;

pub mod health;
pub mod text;
pub mod schema;
pub mod graph;
pub mod graph_laws;
pub mod paths;
pub mod supervisor;
pub mod launch;
pub mod lifecycle;
pub mod auth;
pub mod import;
pub mod tailscale;
pub mod desktop;
