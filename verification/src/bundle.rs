pub mod args;
pub mod errors;
pub mod fluent_bundle;
pub mod laws;
pub mod message;
pub mod number;
pub mod plural;
pub mod rendering;
pub mod resolver;
pub mod resource;
pub mod scope;
pub mod types;
pub mod unicode;
