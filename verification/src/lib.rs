//! Target resolution and multi-device command planning for network-attached
//! key lights.

pub mod address;
pub mod cache;
pub mod decimal;
pub mod discovery;
pub mod error;
pub mod executor;
pub mod explicit;
pub mod filter;
pub mod light;
pub mod message;
pub mod order;
pub mod report;
pub mod resolver;
pub mod target;
pub mod text;
