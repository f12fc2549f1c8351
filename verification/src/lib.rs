use vstd::prelude::*;

pub mod auth;
pub mod client;
pub mod config;
pub mod convert;
pub mod reply;
pub mod state;
pub mod sync;
pub mod text;
pub mod trusted;

verus! {
}
