//! A hierarchical, context-scoped configuration store with secret indirection.
//!
//! Values live in a [`Configuration`] keyed by context path and key; a read falls
//! back from a path to its ancestors. A value is a literal or a reference to a
//! secret held in a named [`vault::Vault`], resolved through that vault's own store.
pub mod assoc;
pub mod commands;
pub mod config;
pub mod configuration;
pub mod key_ref;
pub mod path;
pub mod tree;
pub mod value;
pub mod vault;

pub use config::{Config, ConfigError, ConfigFileData};
pub use configuration::Configuration;
pub use key_ref::KeyRef;
pub use path::ContextPath;
pub use tree::{ArenaTree, Node};
pub use value::ConfigValue;
pub use vault::{AwsSecretInfo, Vault, VaultKind};
