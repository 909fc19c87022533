//! A proxy in front of PostgreSQL that lets only whitelisted queries through.
pub mod config;
pub mod decimal;
pub mod lookup;
pub mod protocol;
pub mod provider;
pub mod proxy;
pub mod scan;
pub mod scope;
pub mod search;
pub mod session;
pub mod template;
pub mod text;
pub mod whitelist;
